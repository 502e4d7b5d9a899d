use maze_solver::Cell;
use maze_solver::Coord;
use maze_solver::LoadError;
use maze_solver::Maze;
use maze_solver::loader::find_sole;
use maze_solver::loader::read_maze;

fn refusal(text: &str) -> Option<LoadError> {
    Maze::new(text).err()
}

#[test]
fn description_is_read_row_by_row() {
    let maze = Maze::new("2\n3\nS# \n E#\n").unwrap();
    assert_eq!(maze.rows(), 2);
    assert_eq!(maze.cols(), 3);
    assert_eq!(maze.start(), Coord { row: 0, col: 0 });
    assert_eq!(maze.end(), Coord { row: 1, col: 1 });
    assert_eq!(maze.cell(Coord { row: 0, col: 0 }), Some(Cell::Start));
    assert_eq!(maze.cell(Coord { row: 0, col: 1 }), Some(Cell::Wall));
    assert_eq!(maze.cell(Coord { row: 0, col: 2 }), Some(Cell::Path));
    assert_eq!(maze.cell(Coord { row: 1, col: 0 }), Some(Cell::Path));
    assert_eq!(maze.cell(Coord { row: 1, col: 1 }), Some(Cell::End));
    assert_eq!(maze.cell(Coord { row: 1, col: 2 }), Some(Cell::Wall));
    assert_eq!(maze.parent(Coord { row: 0, col: 2 }), None);
}

#[test]
fn positions_off_the_grid_hold_nothing() {
    let maze = Maze::new("2\n3\nS# \n E#\n").unwrap();
    assert_eq!(maze.cell(Coord { row: 2, col: 0 }), None);
    assert_eq!(maze.cell(Coord { row: 0, col: 3 }), None);
    assert_eq!(maze.parent(Coord { row: 2, col: 0 }), None);
    assert_eq!(maze.parent(Coord { row: 0, col: 3 }), None);
}

#[test]
fn spaces_at_the_ends_of_a_row_are_squares() {
    let maze = Maze::new("3\n3\nS  \n # \n  E\n").unwrap();
    assert_eq!(maze.cols(), 3);
    assert_eq!(maze.cell(Coord { row: 0, col: 2 }), Some(Cell::Path));
    assert_eq!(maze.cell(Coord { row: 2, col: 0 }), Some(Cell::Path));
    assert_eq!(maze.end(), Coord { row: 2, col: 2 });
}

#[test]
fn last_line_needs_no_newline() {
    let maze = Maze::new("1\n2\nSE").unwrap();
    assert_eq!(maze.rows(), 1);
    assert_eq!(maze.end(), Coord { row: 0, col: 1 });
}

#[test]
fn carriage_return_at_the_end_of_a_row_is_turned_down() {
    assert_eq!(refusal("2\r\n3\r\nS# \r\n E#\r\n"), Some(LoadError::RowLength));
    assert_eq!(refusal("2\n3\nS# \r\n E#\r\n"), Some(LoadError::RowLength));
    assert_eq!(refusal("2\n3\nS# \n E#\r\n"), Some(LoadError::RowLength));
    assert_eq!(refusal("1\n2\nSE\r\n"), Some(LoadError::RowLength));
    assert_eq!(refusal("1\n2\nSE\r"), Some(LoadError::RowLength));
}

#[test]
fn carriage_return_in_place_of_a_square_is_a_symbol_error() {
    assert_eq!(refusal("1\n3\nSE\r\n"), Some(LoadError::Symbol));
    assert_eq!(refusal("1\n3\nS\rE\n"), Some(LoadError::Symbol));
    assert_eq!(refusal("2\n2\nSE\n \r\n"), Some(LoadError::Symbol));
}

#[test]
fn blanks_other_than_spaces_are_no_squares() {
    assert_eq!(refusal("1\n3\nS\tE\n"), Some(LoadError::Symbol));
    assert_eq!(refusal("1\n2\nSE\t\n"), Some(LoadError::RowLength));
    assert_eq!(refusal("1\n2\n\tSE\n"), Some(LoadError::RowLength));
}

#[test]
fn dimension_lines_may_have_blanks_a_plus_sign_and_leading_zeros() {
    let maze = Maze::new(" 1\t\n +002 \nSE\n").unwrap();
    assert_eq!(maze.rows(), 1);
    assert_eq!(maze.cols(), 2);
}

#[test]
fn unknown_character_is_a_symbol_error() {
    assert_eq!(refusal("3\n3\nS  \n X \n  E\n"), Some(LoadError::Symbol));
    assert_eq!(refusal("1\n3\nSeE\n"), Some(LoadError::Symbol));
    assert_eq!(refusal("1\n3\nS.E\n"), Some(LoadError::Symbol));
}

#[test]
fn missing_or_bad_dimension_is_a_dimension_error() {
    assert_eq!(refusal(""), Some(LoadError::Dimension));
    assert_eq!(refusal("3\n"), Some(LoadError::Dimension));
    assert_eq!(refusal("three\n3\nS E\n"), Some(LoadError::Dimension));
    assert_eq!(refusal("1\n\nSE\n"), Some(LoadError::Dimension));
    assert_eq!(refusal("1\n-2\nSE\n"), Some(LoadError::Dimension));
    assert_eq!(refusal("1\n2 2\nSE\n"), Some(LoadError::Dimension));
    assert_eq!(refusal("1\n+\nSE\n"), Some(LoadError::Dimension));
    assert_eq!(refusal("1\n++2\nSE\n"), Some(LoadError::Dimension));
    assert_eq!(refusal("1\n2.0\nSE\n"), Some(LoadError::Dimension));
}

#[test]
fn dimension_must_fit_in_thirty_two_bits() {
    assert_eq!(refusal("4294967296\n2\nSE\n"), Some(LoadError::Dimension));
    assert_eq!(refusal("1\n99999999999999999999999999\nSE\n"), Some(LoadError::Dimension));
    assert_eq!(refusal("4294967295\n2\nSE\n"), Some(LoadError::RowCount));
    assert_eq!(refusal("1\n4294967295\nSE\n"), Some(LoadError::RowLength));
}

#[test]
fn wrong_number_of_rows_is_a_row_count_error() {
    assert_eq!(refusal("3\n2\nSE\n  \n"), Some(LoadError::RowCount));
    assert_eq!(refusal("1\n2\nSE\n  \n"), Some(LoadError::RowCount));
    assert_eq!(refusal("1\n2\nSE\n\n"), Some(LoadError::RowCount));
    assert_eq!(refusal("1\n2\n"), Some(LoadError::RowCount));
}

#[test]
fn wrong_length_of_a_row_is_a_row_length_error() {
    assert_eq!(refusal("2\n2\nSE\n \n"), Some(LoadError::RowLength));
    assert_eq!(refusal("2\n2\nSE\n   \n"), Some(LoadError::RowLength));
    assert_eq!(refusal("1\n2\nSE \n"), Some(LoadError::RowLength));
    assert_eq!(refusal("1\n2\nSE\r\n"), Some(LoadError::RowLength));
    assert_eq!(refusal("1\n2\nSE\r\r\n"), Some(LoadError::RowLength));
}

#[test]
fn start_must_occur_exactly_once() {
    assert_eq!(refusal("1\n2\n E\n"), Some(LoadError::StartCount));
    assert_eq!(refusal("1\n3\nSES\n"), Some(LoadError::StartCount));
    assert_eq!(refusal("2\n2\nS \nSE\n"), Some(LoadError::StartCount));
    assert_eq!(refusal("0\n0\n"), Some(LoadError::StartCount));
    assert_eq!(refusal("1\n0\n\n"), Some(LoadError::StartCount));
}

#[test]
fn end_must_occur_exactly_once() {
    assert_eq!(refusal("1\n2\nS \n"), Some(LoadError::EndCount));
    assert_eq!(refusal("1\n3\nESE\n"), Some(LoadError::EndCount));
    assert_eq!(refusal("2\n2\nSE\n E\n"), Some(LoadError::EndCount));
}

#[test]
fn earlier_reason_wins() {
    assert_eq!(refusal("x\n2\nXX\n"), Some(LoadError::Dimension));
    assert_eq!(refusal("2\n2\nXX\n"), Some(LoadError::RowCount));
    assert_eq!(refusal("2\n2\nXX\nS\n"), Some(LoadError::RowLength));
    assert_eq!(refusal("2\n2\n  \nXX\n"), Some(LoadError::Symbol));
    assert_eq!(refusal("2\n2\n  \n  \n"), Some(LoadError::StartCount));
    assert_eq!(refusal("2\n2\nS \n  \n"), Some(LoadError::EndCount));
}

#[test]
fn start_and_end_are_never_one_square() {
    let maze = Maze::new("1\n2\nES\n").unwrap();
    assert_ne!(maze.start(), maze.end());
    assert_eq!(maze.start(), Coord { row: 0, col: 1 });
    assert_eq!(maze.end(), Coord { row: 0, col: 0 });
    assert_eq!(refusal("1\n1\nS\n"), Some(LoadError::EndCount));
    assert_eq!(refusal("1\n1\nE\n"), Some(LoadError::StartCount));
}

#[test]
fn glyphs_and_symbols_of_squares() {
    assert_eq!(Cell::from_symbol(b'#'), Some(Cell::Wall));
    assert_eq!(Cell::from_symbol(b' '), Some(Cell::Path));
    assert_eq!(Cell::from_symbol(b'S'), Some(Cell::Start));
    assert_eq!(Cell::from_symbol(b'E'), Some(Cell::End));
    assert_eq!(Cell::from_symbol(b'.'), None);
    assert_eq!(Cell::from_symbol(b's'), None);
    assert_eq!(Cell::Path.glyph(), ' ');
    assert_eq!(Cell::PathVisited.glyph(), ' ');
    assert_eq!(Cell::PathSolution.glyph(), '.');
    assert_eq!(Cell::Wall.glyph(), '#');
    assert_eq!(Cell::Start.glyph(), 'S');
    assert_eq!(Cell::End.glyph(), 'E');
    assert!(Cell::Path.open());
    assert!(Cell::End.open());
    assert!(!Cell::PathVisited.open());
    assert!(!Cell::PathSolution.open());
    assert!(!Cell::Wall.open());
    assert!(!Cell::Start.open());
}

#[test]
fn the_one_square_of_a_kind_is_found() {
    let grid = vec![
        vec![Cell::Wall, Cell::Path, Cell::Start],
        vec![Cell::End, Cell::Path, Cell::Wall],
    ];
    assert_eq!(find_sole(&grid, Cell::Start), Some(Coord { row: 0, col: 2 }));
    assert_eq!(find_sole(&grid, Cell::End), Some(Coord { row: 1, col: 0 }));
    assert_eq!(find_sole(&grid, Cell::Wall), None);
    assert_eq!(find_sole(&grid, Cell::Path), None);
    assert_eq!(find_sole(&grid, Cell::PathVisited), None);
    assert_eq!(find_sole(&Vec::new(), Cell::Start), None);
}

#[test]
fn parts_of_a_description_are_handed_out() {
    let (rows, cols, grid, start, end) = read_maze(b"2\n3\nS# \n E#\n").unwrap();
    assert_eq!(rows, 2);
    assert_eq!(cols, 3);
    assert_eq!(
        grid,
        vec![
            vec![Cell::Start, Cell::Wall, Cell::Path],
            vec![Cell::Path, Cell::End, Cell::Wall],
        ]
    );
    assert_eq!(start, Coord { row: 0, col: 0 });
    assert_eq!(end, Coord { row: 1, col: 1 });
    assert_eq!(read_maze(b"2\n3\nS# \n E?\n").err(), Some(LoadError::Symbol));
}
