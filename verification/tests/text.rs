use maze_solver::LoadError;
use maze_solver::Maze;
use maze_solver::text::parse_number;
use maze_solver::text::split_lines;

#[test]
fn lines_end_at_newlines() {
    let lines = split_lines(b"ab\n\ncd");
    assert_eq!(lines.len(), 3);
    assert_eq!(lines[0], b"ab");
    assert_eq!(lines[1], b"");
    assert_eq!(lines[2], b"cd");
}

#[test]
fn newline_at_the_end_begins_no_line() {
    assert_eq!(split_lines(b"ab\n").len(), 1);
    assert_eq!(split_lines(b"ab\n\n").len(), 2);
    assert_eq!(split_lines(b"\n").len(), 1);
    assert_eq!(split_lines(b"").len(), 0);
}

#[test]
fn carriage_return_stays_in_its_line() {
    let lines = split_lines(b"ab\r\ncd\r");
    assert_eq!(lines.len(), 2);
    assert_eq!(lines[0], b"ab\r");
    assert_eq!(lines[1], b"cd\r");
    assert_eq!(split_lines(b"\r\n")[0], b"\r");
    assert_eq!(Maze::new("1\n2\nSE\r\n").err(), Some(LoadError::RowLength));
    assert_eq!(Maze::new("1\n3\nSE\r\n").err(), Some(LoadError::Symbol));
}

#[test]
fn numbers_are_read_in_base_ten() {
    assert_eq!(parse_number(b"0"), Some(0));
    assert_eq!(parse_number(b"7"), Some(7));
    assert_eq!(parse_number(b"120"), Some(120));
    assert_eq!(parse_number(b"007"), Some(7));
    assert_eq!(parse_number(b"+15"), Some(15));
    assert_eq!(parse_number(b"  42\t\r"), Some(42));
    assert_eq!(parse_number(b"4294967295"), Some(4294967295));
    assert_eq!(parse_number(b"0000000004294967295"), Some(4294967295));
}

#[test]
fn what_is_no_number_is_turned_down() {
    assert_eq!(parse_number(b""), None);
    assert_eq!(parse_number(b"   "), None);
    assert_eq!(parse_number(b"+"), None);
    assert_eq!(parse_number(b"-1"), None);
    assert_eq!(parse_number(b"1 2"), None);
    assert_eq!(parse_number(b"12a"), None);
    assert_eq!(parse_number(b"+ 1"), None);
    assert_eq!(parse_number(b"4294967296"), None);
    assert_eq!(parse_number(b"42949672950"), None);
    assert_eq!(parse_number(b"18446744073709551616"), None);
    assert_eq!(parse_number(b"184467440737095516160000"), None);
}
