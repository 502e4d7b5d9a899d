use maze_solver::Cell;
use maze_solver::Coord;
use maze_solver::Maze;

fn at(row: usize, col: usize) -> Coord {
    Coord { row, col }
}

fn count(maze: &Maze, cell: Cell) -> usize {
    let mut n = 0;
    for row in 0..maze.rows() {
        for col in 0..maze.cols() {
            if maze.cell(at(row, col)) == Some(cell) {
                n += 1;
            }
        }
    }
    n
}

#[test]
fn open_corner_to_corner_is_solved_around_the_wall() {
    let mut maze = Maze::new("3\n3\nS  \n # \n  E\n").unwrap();
    maze.solve();
    assert_eq!(maze.cell(at(0, 0)), Some(Cell::Start));
    assert_eq!(maze.cell(at(1, 1)), Some(Cell::Wall));
    assert_eq!(maze.cell(at(2, 2)), Some(Cell::End));
    assert_eq!(maze.cell(at(1, 0)), Some(Cell::PathSolution));
    assert_eq!(maze.cell(at(2, 0)), Some(Cell::PathSolution));
    assert_eq!(maze.cell(at(2, 1)), Some(Cell::PathSolution));
    assert_eq!(maze.cell(at(0, 1)), Some(Cell::Path));
    assert_eq!(maze.cell(at(0, 2)), Some(Cell::Path));
    assert_eq!(maze.cell(at(1, 2)), Some(Cell::Path));
    assert_eq!(maze.render(), "S     \n. #   \n. . E \n");
}

#[test]
fn solution_squares_form_a_chain_between_the_ends() {
    let mut maze = Maze::new("3\n3\nS  \n # \n  E\n").unwrap();
    maze.solve();
    let mut here = maze.parent(maze.end()).unwrap();
    let mut before = maze.end();
    let mut steps = 0;
    while here != maze.start() {
        assert_eq!(maze.cell(here), Some(Cell::PathSolution));
        let apart = here.row.abs_diff(before.row) + here.col.abs_diff(before.col);
        assert_eq!(apart, 1);
        before = here;
        here = maze.parent(here).unwrap();
        steps += 1;
    }
    let apart = here.row.abs_diff(before.row) + here.col.abs_diff(before.col);
    assert_eq!(apart, 1);
    assert_eq!(steps, count(&maze, Cell::PathSolution));
    assert_eq!(steps, 3);
}

#[test]
fn walled_off_end_leaves_no_solution() {
    let mut maze = Maze::new("3\n4\nS #E\n  ##\n    \n").unwrap();
    let before = maze.render();
    maze.solve();
    assert_eq!(count(&maze, Cell::PathSolution), 0);
    assert_eq!(count(&maze, Cell::Path), 0);
    assert_eq!(count(&maze, Cell::PathVisited), 7);
    assert_eq!(maze.cell(at(0, 1)), Some(Cell::PathVisited));
    assert_eq!(maze.cell(at(2, 3)), Some(Cell::PathVisited));
    assert_eq!(maze.cell(at(0, 0)), Some(Cell::Start));
    assert_eq!(maze.cell(at(0, 3)), Some(Cell::End));
    assert_eq!(maze.parent(maze.end()), None);
    let after = maze.render();
    assert!(!after.contains('.'));
    assert_eq!(after, "S   # E \n    # # \n        \n");
    assert_eq!(after, before);
}

#[test]
fn unreachable_free_squares_stay_untouched() {
    let mut maze = Maze::new("1\n5\nS #E \n").unwrap();
    maze.solve();
    assert_eq!(maze.cell(at(0, 1)), Some(Cell::PathVisited));
    assert_eq!(maze.cell(at(0, 4)), Some(Cell::Path));
    assert_eq!(count(&maze, Cell::PathSolution), 0);
}

#[test]
fn search_goes_depth_first_left_before_bottom_before_right_before_top() {
    let mut maze = Maze::new("3\n3\nS  \n   \n  E\n").unwrap();
    maze.solve();
    assert_eq!(maze.render(), "S     \n.     \n. . E \n");
    assert_eq!(maze.cell(at(1, 0)), Some(Cell::PathSolution));
    assert_eq!(maze.cell(at(2, 0)), Some(Cell::PathSolution));
    assert_eq!(maze.cell(at(2, 1)), Some(Cell::PathSolution));
    assert_eq!(maze.cell(at(0, 1)), Some(Cell::Path));
    assert_eq!(maze.cell(at(1, 1)), Some(Cell::Path));
    assert_eq!(count(&maze, Cell::PathVisited), 0);
}

#[test]
fn the_last_discoverer_is_the_parent() {
    let mut maze = Maze::new("3\n3\nS  \n   \n  E\n").unwrap();
    maze.solve();
    assert_eq!(maze.parent(at(1, 1)), Some(at(2, 1)));
    assert_eq!(maze.parent(at(0, 1)), Some(at(0, 0)));
    assert_eq!(maze.parent(at(1, 0)), Some(at(0, 0)));
    assert_eq!(maze.parent(at(2, 0)), Some(at(1, 0)));
    assert_eq!(maze.parent(at(2, 1)), Some(at(2, 0)));
    assert_eq!(maze.parent(at(2, 2)), Some(at(2, 1)));
    assert_eq!(maze.parent(at(0, 0)), None);
    assert_eq!(maze.parent(at(0, 2)), None);
}

#[test]
fn found_route_need_not_be_the_shortest() {
    let mut maze = Maze::new("3\n3\n E \n # \n S \n").unwrap();
    maze.solve();
    // Left is looked at last and so expanded first.
    assert_eq!(maze.render(), ". E   \n. #   \n. S   \n");
    let mut other = Maze::new("2\n3\n   \nS E\n").unwrap();
    other.solve();
    assert_eq!(other.render(), "      \nS . E \n");
}

#[test]
fn visited_squares_off_the_route_stay_visited() {
    let mut maze = Maze::new("3\n4\n    \nS ##\n#  E\n").unwrap();
    maze.solve();
    assert_eq!(maze.cell(at(1, 1)), Some(Cell::PathSolution));
    assert_eq!(maze.cell(at(2, 1)), Some(Cell::PathSolution));
    assert_eq!(maze.cell(at(2, 2)), Some(Cell::PathSolution));
    assert_eq!(maze.cell(at(0, 0)), Some(Cell::Path));
    assert_eq!(maze.render(), "        \nS . # # \n# . . E \n");
}

#[test]
fn dead_end_is_visited_before_the_route_is_found() {
    let mut maze = Maze::new("3\n3\n  E\nS# \n  #\n").unwrap();
    maze.solve();
    assert_eq!(maze.cell(at(2, 0)), Some(Cell::PathVisited));
    assert_eq!(maze.cell(at(2, 1)), Some(Cell::PathVisited));
    assert_eq!(maze.cell(at(0, 0)), Some(Cell::PathSolution));
    assert_eq!(maze.cell(at(0, 1)), Some(Cell::PathSolution));
    assert_eq!(maze.cell(at(1, 2)), Some(Cell::Path));
    assert_eq!(maze.render(), ". . E \nS #   \n    # \n");
}

#[test]
fn end_beside_start_marks_nothing() {
    let mut maze = Maze::new("1\n2\nSE\n").unwrap();
    maze.solve();
    assert_eq!(maze.parent(maze.end()), Some(maze.start()));
    assert_eq!(count(&maze, Cell::PathSolution), 0);
    assert_eq!(maze.render(), "S E \n");
}

#[test]
fn start_and_end_keep_their_squares() {
    let mut maze = Maze::new("3\n3\nS  \n # \n  E\n").unwrap();
    let start = maze.start();
    let end = maze.end();
    maze.solve();
    assert_eq!(maze.start(), start);
    assert_eq!(maze.end(), end);
    assert_eq!(maze.cell(start), Some(Cell::Start));
    assert_eq!(maze.cell(end), Some(Cell::End));
    assert_eq!(count(&maze, Cell::Start), 1);
    assert_eq!(count(&maze, Cell::End), 1);
    assert_eq!(count(&maze, Cell::Wall), 1);
}

#[test]
fn drawing_twice_gives_the_same_text() {
    let mut maze = Maze::new("3\n3\nS  \n # \n  E\n").unwrap();
    assert_eq!(maze.render(), maze.render());
    maze.solve();
    let first = maze.render();
    let second = maze.render();
    assert_eq!(first, second);
}

#[test]
fn same_description_gives_the_same_solution() {
    let text = "4\n5\nS    \n ### \n   # \n # E \n";
    let mut one = Maze::new(text).unwrap();
    let mut two = Maze::new(text).unwrap();
    one.solve();
    two.solve();
    assert_eq!(one.render(), two.render());
    for row in 0..one.rows() {
        for col in 0..one.cols() {
            assert_eq!(one.cell(at(row, col)), two.cell(at(row, col)));
            assert_eq!(one.parent(at(row, col)), two.parent(at(row, col)));
        }
    }
    assert_eq!(one.render(), "S         \n. # # #   \n. . . #   \n  # . E   \n");
}

#[test]
fn solving_again_takes_the_route_that_is_left() {
    let mut maze = Maze::new("3\n3\nS  \n # \n  E\n").unwrap();
    maze.solve();
    maze.solve();
    assert_eq!(maze.render(), "S . . \n. # . \n. . E \n");
    maze.solve();
    assert_eq!(maze.render(), "S . . \n. # . \n. . E \n");
}

#[test]
fn drawing_uses_two_characters_for_each_square() {
    let maze = Maze::new("2\n3\nS# \n E#\n").unwrap();
    assert_eq!(maze.render(), "S #   \n  E # \n");
    assert_eq!(maze.render().len(), 2 * (2 * 3 + 1));
}

#[test]
fn squares_pushed_twice_are_expanded_once() {
    let mut maze = Maze::new("4\n4\nS   \n    \n    \n###E\n").unwrap();
    maze.solve();
    assert_eq!(maze.render(), "S       \n.       \n. . . . \n# # # E \n");
    assert_eq!(count(&maze, Cell::PathVisited), 0);
    assert_eq!(count(&maze, Cell::PathSolution), 5);
    assert_eq!(maze.parent(at(1, 1)), Some(at(2, 1)));
    assert_eq!(maze.parent(at(1, 2)), Some(at(2, 2)));
    assert_eq!(maze.parent(at(1, 3)), Some(at(2, 3)));
}

#[test]
fn whole_free_area_is_visited_when_the_end_is_shut_in() {
    let mut maze = Maze::new("5\n5\nS    \n     \n  ###\n  #E#\n  ###\n").unwrap();
    let before = maze.render();
    maze.solve();
    assert_eq!(count(&maze, Cell::Path), 0);
    assert_eq!(count(&maze, Cell::PathVisited), 15);
    assert_eq!(count(&maze, Cell::PathSolution), 0);
    assert_eq!(count(&maze, Cell::Wall), 8);
    assert_eq!(maze.render(), before);
    assert_eq!(maze.parent(maze.end()), None);
}
