//! The maze as it is stored, and the search that solves it in place.

use vstd::prelude::*;
use vstd::string::StringSliceAdditionalSpecFns;
use crate::cell::Cell;
use crate::cell::Coord;
use crate::drawing::draw;
use crate::drawing::drawing;
use crate::grid::cell_at;
use crate::grid::cells_of;
use crate::grid::in_grid;
use crate::grid::path_count;
use crate::grid::reachable;
use crate::grid::untouched;
use crate::grid::width;
use crate::grid::with_cell;
use crate::loader::LoadError;
use crate::loader::lemma_loaded_valid;
use crate::loader::loaded;
use crate::loader::read_maze;
use crate::model::MazeView;
use crate::outcome::lemma_solved_marks_route;
use crate::outcome::lemma_solved_outcome;
use crate::outcome::marks_route;
use crate::outcome::only_marks;
use crate::outcome::visits_reachable;
use crate::progress::inv;
use crate::progress::lemma_inv_opening;
use crate::progress::lemma_inv_shape;
use crate::progress::lemma_inv_step;
use crate::progress::lemma_inv_top;
use crate::search::Search;
use crate::search::above;
use crate::search::adopt;
use crate::search::below;
use crate::search::frontier;
use crate::search::halted;
use crate::search::lemma_frontier_members;
use crate::search::lemma_step_decreases;
use crate::search::load;
use crate::search::offer;
use crate::search::right_of;
use crate::search::run;
use crate::search::step;
use crate::search::takes;
use crate::trail::ancestor;
use crate::trail::leads_back;
use crate::trail::lemma_ancestor_next;
use crate::trail::lemma_on_trail_before;
use crate::trail::traced;

verus! {

/// A rectangular maze with one start and one end, together with the
/// parents that searches have recorded in it.
#[derive(Debug)]
pub struct Maze {
    rows: usize,
    cols: usize,
    grid: Vec<Vec<Cell>>,
    /// One slot for each square, filled once the square has been
    /// discovered: a map from positions to positions, laid out as the grid.
    parent_cells: Vec<Vec<Option<Coord>>>,
    start: Coord,
    end: Coord,
}

impl View for Maze {
    type V = MazeView;

    closed spec fn view(&self) -> MazeView {
        MazeView { cells: self.cells(), parents: self.parents(), start: self.start, end: self.end }
    }
}

impl Maze {
    /// The squares, row by row.
    spec fn cells(&self) -> Seq<Seq<Cell>> {
        cells_of(self.grid)
    }

    /// The recorded parents: a position has one where its slot is filled.
    spec fn parents(&self) -> Map<Coord, Coord> {
        Map::new(
            |p: Coord|
                p.row < self.parent_cells@.len() && p.col < self.parent_cells@[p.row as int]@.len()
                    && self.parent_cells@[p.row as int]@[p.col as int] is Some,
            |p: Coord| self.parent_cells@[p.row as int]@[p.col as int]->0,
        )
    }

    /// The stored sizes are those of the grid, and the parents have a slot
    /// for every square.
    spec fn framed(&self) -> bool {
        &&& self.grid@.len() == self.rows
        &&& self.parent_cells@.len() == self.rows
        &&& forall|r: int| 0 <= r < self.rows ==> (#[trigger] self.grid@[r])@.len() == self.cols
        &&& forall|r: int| 0 <= r < self.rows ==> (#[trigger] self.parent_cells@[r])@.len() == self.cols
    }

    /// The maze is stored consistently and is valid as a mathematical
    /// value.
    pub closed spec fn wf(&self) -> bool {
        &&& self.framed()
        &&& self@.valid()
    }

    /// A well-formed maze is valid as a mathematical value: its grid is
    /// rectangular, `Start` and `End` each stand on exactly one square, at
    /// the recorded positions, and only squares of the grid have a parent.
    pub proof fn lemma_wf_is_valid(&self)
        requires
            self.wf(),
        ensures
            self@.valid(),
    {
    }

    /// The search state made of the maze as it stands and the given stack.
    spec fn search(&self, stack: Seq<Coord>, solved: bool) -> Search {
        Search { cells: self.cells(), parents: self.parents(), stack, solved }
    }

    /// Reads a maze from its description: two lines with the numbers of
    /// rows and of columns, then one line for each row, in which `#` is a
    /// wall, a space a free square, `S` the start and `E` the end.
    ///
    /// A row's line is taken as it stands, byte for byte up to its newline.
    /// A description is turned down as a whole, and for the first reason
    /// that `LoadError` lists. Every square is one byte, so the start and
    /// the end of a maze that was read are never the same square.
    pub fn new(text: &str) -> (out: Result<Maze, LoadError>)
        ensures
            match loaded(text.spec_bytes()) {
                Ok(m) => out is Ok && out.unwrap().wf() && out.unwrap()@ == m,
                Err(e) => out == Err::<Maze, LoadError>(e),
            },
            out is Ok ==> out.unwrap()@.valid(),
            out is Ok ==> untouched(out.unwrap()@.cells) && out.unwrap()@.start != out.unwrap()@.end,
    {
        let (rows, cols, grid, start, end) = match read_maze(text.as_bytes()) {
            Ok(parts) => parts,
            Err(e) => {
                return Err(e);
            },
        };
        let mut parent_cells: Vec<Vec<Option<Coord>>> = Vec::new();
        let mut r: usize = 0;
        while r < rows
            invariant
                r <= rows,
                parent_cells@.len() == r,
                forall|i: int| 0 <= i < r ==> (#[trigger] parent_cells@[i])@.len() == cols,
                forall|i: int, j: int|
                    0 <= i < r && 0 <= j < cols ==> (#[trigger] parent_cells@[i]@[j]) is None,
            decreases rows - r,
        {
            let mut row: Vec<Option<Coord>> = Vec::new();
            let mut k: usize = 0;
            while k < cols
                invariant
                    k <= cols,
                    row@.len() == k,
                    forall|j: int| 0 <= j < k ==> (#[trigger] row@[j]) is None,
                decreases cols - k,
            {
                row.push(None);
                k = k + 1;
            }
            parent_cells.push(row);
            r = r + 1;
        }
        let maze = Maze { rows, cols, grid, parent_cells, start, end };
        proof {
            let m = loaded(text.spec_bytes()).unwrap();
            lemma_loaded_valid(text.spec_bytes());
            assert(maze.parents() =~= m.parents);
            assert(maze@ == m);
            assert forall|i: int| 0 <= i < maze.rows implies (#[trigger] maze.grid@[i])@.len()
                == maze.cols by {
                assert(m.cells[i].len() == cols);
            }
        }
        Ok(maze)
    }

    /// The number of rows.
    pub fn rows(&self) -> (n: usize)
        requires
            self.wf(),
        ensures
            n == self@.cells.len(),
    {
        self.rows
    }

    /// The number of columns.
    pub fn cols(&self) -> (n: usize)
        requires
            self.wf(),
        ensures
            n == width(self@.cells),
    {
        self.cols
    }

    /// The position of the start.
    pub fn start(&self) -> (p: Coord)
        ensures
            p == self@.start,
    {
        self.start
    }

    /// The position of the end.
    pub fn end(&self) -> (p: Coord)
        ensures
            p == self@.end,
    {
        self.end
    }

    /// The square at a position, if the position lies on the grid.
    pub fn cell(&self, p: Coord) -> (c: Option<Cell>)
        ensures
            c == if in_grid(self@.cells, p) {
                Some(cell_at(self@.cells, p))
            } else {
                None
            },
    {
        if p.row < self.grid.len() && p.col < self.grid[p.row].len() {
            Some(self.grid[p.row][p.col])
        } else {
            None
        }
    }

    /// The parent that the searches have recorded for a position, if they
    /// have recorded one.
    pub fn parent(&self, p: Coord) -> (q: Option<Coord>)
        ensures
            q == if self@.parents.dom().contains(p) {
                Some(self@.parents[p])
            } else {
                None
            },
    {
        if p.row < self.parent_cells.len() && p.col < self.parent_cells[p.row].len() {
            self.parent_cells[p.row][p.col]
        } else {
            None
        }
    }

    /// The maze as text: one line for each row, and for each square its
    /// glyph and a space. Free squares are blank whether visited or not,
    /// squares of the solution are `.`, walls `#`, the start `S`, the end
    /// `E`.
    pub fn render(&self) -> (out: String)
        ensures
            out@ == drawing(self@.cells),
    {
        draw(&self.grid)
    }

    /// Looks at one neighbour `n` of `cur`: if its square is open, `cur`
    /// becomes its parent and it is put on the stack.
    fn offer(&mut self, stack: &mut Vec<Coord>, cur: Coord, n: Coord)
        requires
            old(self).framed(),
            in_grid(old(self).cells(), n),
        ensures
            final(self).framed(),
            final(self).rows == old(self).rows,
            final(self).cols == old(self).cols,
            final(self).start == old(self).start,
            final(self).end == old(self).end,
            final(self).cells() == old(self).cells(),
            final(stack)@ == offer(old(self).cells(), old(stack)@, true, n),
            final(self).parents() == if takes(old(self).cells(), true, n) {
                old(self).parents().insert(n, cur)
            } else {
                old(self).parents()
            },
    {
        if self.grid[n.row][n.col].open() {
            self.parent_cells[n.row][n.col] = Some(cur);
            stack.push(n);
            proof {
                assert(self.parents() =~= old(self).parents().insert(n, cur));
            }
        }
    }

    /// Looks at the four neighbours of `cur` in the order top, right,
    /// bottom, left, and takes up each one that is open.
    fn expand(&mut self, stack: &mut Vec<Coord>, cur: Coord)
        requires
            old(self).framed(),
            in_grid(old(self).cells(), cur),
        ensures
            final(self).framed(),
            final(self).rows == old(self).rows,
            final(self).cols == old(self).cols,
            final(self).start == old(self).start,
            final(self).end == old(self).end,
            final(self).cells() == old(self).cells(),
            final(stack)@ == old(stack)@ + frontier(old(self).cells(), cur),
            final(self).parents() == adopt(
                old(self).parents(),
                frontier(old(self).cells(), cur),
                cur,
            ),
    {
        let ghost rest = stack@;
        let ghost cells = self.cells();
        // Top
        if cur.row != 0 {
            self.offer(stack, cur, Coord { row: cur.row - 1, col: cur.col });
        }
        let ghost top = offer(cells, Seq::empty(), cur.row > 0, above(cur));
        assert(stack@ =~= rest + top);
        // Right
        if cur.col != self.cols - 1 {
            self.offer(stack, cur, Coord { row: cur.row, col: cur.col + 1 });
        }
        let ghost right = offer(cells, top, cur.col < usize::MAX, right_of(cur));
        assert(stack@ =~= rest + right);
        // Bottom
        if cur.row != self.rows - 1 {
            self.offer(stack, cur, Coord { row: cur.row + 1, col: cur.col });
        }
        let ghost bottom = offer(cells, right, cur.row < usize::MAX, below(cur));
        assert(stack@ =~= rest + bottom);
        // Left
        if cur.col != 0 {
            self.offer(stack, cur, Coord { row: cur.row, col: cur.col - 1 });
        }
        proof {
            let found = frontier(cells, cur);
            assert(stack@ =~= rest + found);
            lemma_frontier_members(cells, cur);
            assert(self.parents() =~= adopt(old(self).parents(), found, cur));
        }
    }

    /// Searches depth first from `Start` for `End`, marking every square it
    /// expands as visited; if it arrives, it marks the squares on the way
    /// back from `End` to `Start` as the solution.
    ///
    /// The outcome is that of the search machine, so it is fixed by the
    /// maze alone. The end is found exactly when a route leads to it; then
    /// the marked squares are the inner squares of such a route. Otherwise
    /// no square is marked, and the visited squares are the free squares
    /// that a route joins to the start.
    pub fn solve(&mut self)
        requires
            old(self).wf(),
        ensures
            final(self).wf(),
            final(self)@.valid(),
            final(self)@ == old(self)@.solved(),
            only_marks(old(self)@.cells, final(self)@.cells),
            reachable(old(self)@.cells, old(self)@.start, old(self)@.end) ==> exists|walk: Seq<Coord>|
                marks_route(
                    old(self)@.cells,
                    final(self)@.cells,
                    walk,
                    old(self)@.start,
                    old(self)@.end,
                ),
            !reachable(old(self)@.cells, old(self)@.start, old(self)@.end) ==> visits_reachable(
                old(self)@,
                final(self)@.cells,
            ),
    {
        let ghost m = self@;
        let mut stack: Vec<Coord> = Vec::new();
        stack.push(self.start);
        let mut is_solved = false;
        proof {
            lemma_inv_opening(m);
            assert(stack@ =~= seq![m.start]);
            assert(self.search(stack@, false) == m.opening());
        }
        while !stack.is_empty()
            invariant_except_break
                !is_solved,
            invariant
                m.valid(),
                self.framed(),
                self.start == m.start,
                self.end == m.end,
                inv(m, self.search(stack@, is_solved)),
                run(self.search(stack@, is_solved)) == run(m.opening()),
            ensures
                halted(self.search(stack@, is_solved)),
            decreases path_count(self.cells()), load(self.cells(), stack@),
        {
            let ghost st = self.search(stack@, false);
            proof {
                lemma_step_decreases(st);
                lemma_inv_step(m, st);
                lemma_inv_top(m, st);
            }
            let cur = stack.pop().unwrap();
            assert(stack@ =~= st.stack.drop_last());
            assert(in_grid(self.cells(), cur));
            match self.grid[cur.row][cur.col] {
                Cell::Start => (),
                Cell::End => {
                    is_solved = true;
                    proof {
                        assert(self.search(stack@, true) == step(st));
                    }
                    break ;
                },
                _ => {
                    self.grid[cur.row][cur.col] = Cell::PathVisited;
                    proof {
                        assert(self.cells() =~= with_cell(st.cells, cur, Cell::PathVisited));
                    }
                },
            }
            self.expand(&mut stack, cur);
            proof {
                assert(self.search(stack@, false) == step(st));
            }
        }
        proof {
            assert(run(m.opening()) == self.search(stack@, is_solved));
        }
        if is_solved {
            proof {
                lemma_solved_marks_route(m);
                lemma_inv_shape(m, self.search(stack@, is_solved));
            }
            self.generate_solution();
        }
        proof {
            assert(self@.cells == m.solved().cells);
            assert(self@.parents == m.solved().parents);
            assert(self@ == m.solved());
            lemma_solved_outcome(m);
        }
    }

    /// Walks from the parent of `End` from parent to parent until it
    /// stands on `Start`, marking each square it leaves as part of the
    /// solution.
    fn generate_solution(&mut self)
        requires
            old(self).framed(),
            in_grid(old(self).cells(), old(self).end),
            exists|n: nat| leads_back(old(self).parents(), old(self).end, old(self).start, n),
        ensures
            final(self).framed(),
            final(self).rows == old(self).rows,
            final(self).cols == old(self).cols,
            final(self).start == old(self).start,
            final(self).end == old(self).end,
            final(self).parents() == old(self).parents(),
            final(self).cells() == traced(
                old(self).cells(),
                old(self).parents(),
                old(self).end,
                old(self).start,
            ),
    {
        let ghost parents = self.parents();
        let ghost before = self.cells();
        let ghost n = choose|n: nat| leads_back(parents, self.end, self.start, n);
        let ghost mut k: nat = 1;
        proof {
            assert(ancestor(parents, self.end, 0) == self.end);
            lemma_ancestor_next(parents, self.end, 0);
        }
        let mut current_cell = self.parent_cells[self.end.row][self.end.col].unwrap();
        while current_cell != self.start
            invariant
                self.framed(),
                self.rows == old(self).rows,
                self.cols == old(self).cols,
                self.start == old(self).start,
                self.end == old(self).end,
                self.parents() == parents,
                leads_back(parents, self.end, self.start, n),
                1 <= k <= n,
                current_cell == ancestor(parents, self.end, k),
                forall|r: int, c: int|
                    0 <= r < self.rows && 0 <= c < self.cols ==> #[trigger] self.grid@[r]@[c] == if exists|
                        j: nat,
                    |
                        1 <= j < k && #[trigger] ancestor(parents, self.end, j) == (Coord {
                            row: r as usize,
                            col: c as usize,
                        }) {
                        Cell::PathSolution
                    } else {
                        before[r][c]
                    },
            decreases n - k,
        {
            proof {
                assert(k < n);
                assert(parents.dom().contains(current_cell));
                lemma_ancestor_next(parents, self.end, k);
            }
            let ghost prev = self.grid@;
            let ghost was = current_cell;
            self.grid[current_cell.row][current_cell.col] = Cell::PathSolution;
            current_cell = self.parent_cells[current_cell.row][current_cell.col].unwrap();
            proof {
                assert forall|r: int, c: int| 0 <= r < self.rows && 0 <= c < self.cols implies
                    #[trigger] self.grid@[r]@[c] == if exists|j: nat|
                    1 <= j < k + 1 && #[trigger] ancestor(parents, self.end, j) == (Coord {
                        row: r as usize,
                        col: c as usize,
                    }) {
                    Cell::PathSolution
                } else {
                    before[r][c]
                } by {
                    let p = Coord { row: r as usize, col: c as usize };
                    if p == was {
                        assert(1 <= k < k + 1 && ancestor(parents, self.end, k) == p);
                    } else {
                        assert(self.grid@[r]@[c] == prev[r]@[c]);
                        if exists|j: nat| 1 <= j < k + 1 && #[trigger] ancestor(parents, self.end, j) == p {
                            let j = choose|j: nat|
                                1 <= j < k + 1 && #[trigger] ancestor(parents, self.end, j) == p;
                            assert(1 <= j < k && ancestor(parents, self.end, j) == p);
                        }
                    }
                }
                assert(self.parents() =~= parents);
                k = k + 1;
            }
        }
        proof {
            assert(k == n);
            let after = traced(before, parents, self.end, self.start);
            assert forall|r: int, c: int| 0 <= r < self.rows && 0 <= c < self.cols implies
                #[trigger] self.cells()[r][c] == after[r][c] by {
                let p = Coord { row: r as usize, col: c as usize };
                lemma_on_trail_before(parents, self.end, self.start, n, p);
            }
            assert(self.cells() =~~= after);
        }
    }
}

} // verus!
