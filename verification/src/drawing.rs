//! The maze drawn as text: one line for each row, two characters for each
//! square.

use vstd::prelude::*;
use crate::cell::Cell;
use crate::cell::cell_glyph;

verus! {

/// `String::push` of the standard library: the string afterwards is the
/// string before with the character appended.
pub assume_specification[ String::push ](s: &mut String, c: char)
    ensures
        final(s)@ == old(s)@.push(c),
;

/// A row as it is drawn: for each square its glyph and a space.
pub open spec fn drawn_row(row: Seq<Cell>) -> Seq<char>
    decreases row.len(),
{
    if row.len() == 0 {
        Seq::empty()
    } else {
        drawn_row(row.drop_last()) + seq![cell_glyph(row.last()), ' ']
    }
}

/// The grid as it is drawn: each row followed by a newline.
pub open spec fn drawing(cells: Seq<Seq<Cell>>) -> Seq<char>
    decreases cells.len(),
{
    if cells.len() == 0 {
        Seq::empty()
    } else {
        drawing(cells.drop_last()) + drawn_row(cells.last()) + seq!['\n']
    }
}

/// Draws a stored grid.
pub fn draw(grid: &Vec<Vec<Cell>>) -> (out: String)
    ensures
        out@ == drawing(crate::grid::cells_of(*grid)),
{
    let ghost cells = crate::grid::cells_of(*grid);
    let mut out = String::new();
    let mut r: usize = 0;
    while r < grid.len()
        invariant
            r <= grid@.len(),
            cells == crate::grid::cells_of(*grid),
            out@ == drawing(cells.take(r as int)),
        decreases grid@.len() - r,
    {
        let ghost done = out@;
        let mut k: usize = 0;
        while k < grid[r].len()
            invariant
                r < grid@.len(),
                k <= grid@[r as int]@.len(),
                cells == crate::grid::cells_of(*grid),
                out@ == done + drawn_row(cells[r as int].take(k as int)),
            decreases grid@[r as int]@.len() - k,
        {
            out.push(grid[r][k].glyph());
            out.push(' ');
            proof {
                let row = cells[r as int];
                assert(row.take(k + 1).drop_last() =~= row.take(k as int));
                assert(out@ =~= done + drawn_row(row.take(k + 1)));
            }
            k = k + 1;
        }
        out.push('\n');
        proof {
            assert(cells[r as int].take(k as int) =~= cells[r as int]);
            assert(cells.take(r + 1).drop_last() =~= cells.take(r as int));
            assert(out@ =~= drawing(cells.take(r + 1)));
        }
        r = r + 1;
    }
    proof {
        assert(cells.take(r as int) =~= cells);
    }
    out
}

/// A drawing is fixed by the squares: as long as no square changes, every
/// drawing of the grid is the same text.
pub proof fn lemma_drawing_is_determined(a: Seq<Seq<Cell>>, b: Seq<Seq<Cell>>)
    requires
        a.len() == b.len(),
        forall|r: int| 0 <= r < a.len() ==> (#[trigger] a[r]).len() == b[r].len(),
        forall|r: int, c: int| 0 <= r < a.len() && 0 <= c < a[r].len() ==> #[trigger] a[r][c] == b[r][c],
    ensures
        drawing(a) == drawing(b),
{
    assert(a =~~= b);
}

/// Visiting does not show: a grid in which free squares have been marked
/// visited is drawn as it was before.
pub proof fn lemma_visits_are_not_drawn(a: Seq<Seq<Cell>>, b: Seq<Seq<Cell>>)
    requires
        a.len() == b.len(),
        forall|r: int| 0 <= r < a.len() ==> (#[trigger] a[r]).len() == b[r].len(),
        forall|r: int, c: int|
            0 <= r < a.len() && 0 <= c < a[r].len() ==> #[trigger] cell_glyph(a[r][c]) == cell_glyph(
                b[r][c],
            ),
    ensures
        drawing(a) == drawing(b),
    decreases a.len(),
{
    if a.len() > 0 {
        lemma_visits_are_not_drawn(a.drop_last(), b.drop_last());
        lemma_same_glyphs_same_row(a.last(), b.last());
    }
}

/// Rows whose squares have the same glyphs are drawn alike.
pub proof fn lemma_same_glyphs_same_row(a: Seq<Cell>, b: Seq<Cell>)
    requires
        a.len() == b.len(),
        forall|c: int| 0 <= c < a.len() ==> cell_glyph(#[trigger] a[c]) == cell_glyph(b[c]),
    ensures
        drawn_row(a) == drawn_row(b),
    decreases a.len(),
{
    if a.len() > 0 {
        lemma_same_glyphs_same_row(a.drop_last(), b.drop_last());
    }
}

} // verus!
