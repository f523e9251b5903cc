use picross_solver::board::{Board, Cell, Puzzle};
use picross_solver::parse::{parse_board, parse_picross_grid_line, parse_puzzle, FormatError};

fn bytes(text: &str) -> Vec<u8> {
    text.as_bytes().to_vec()
}

#[test]
fn test_parse_grid_line_groups() {
    let parsed = parse_picross_grid_line(&bytes("5   | 5 3 |  | 2 1 1 2")).unwrap();
    assert_eq!(parsed, vec![vec![5], vec![5, 3], vec![], vec![2, 1, 1, 2]]);
}

#[test]
fn test_parse_grid_line_single_group() {
    let parsed = parse_picross_grid_line(&bytes("7")).unwrap();
    assert_eq!(parsed, vec![vec![7]]);
}

#[test]
fn test_parse_grid_line_trailing_delimiter() {
    // A trailing pipe makes one more, empty, group.
    let parsed = parse_picross_grid_line(&bytes("1|2|")).unwrap();
    assert_eq!(parsed, vec![vec![1], vec![2], vec![]]);
}

#[test]
fn test_parse_grid_line_bad_token() {
    assert_eq!(
        parse_picross_grid_line(&bytes("1 a | 2")),
        Err(FormatError::BadToken)
    );
    assert_eq!(
        parse_picross_grid_line(&bytes("-1 | 2")),
        Err(FormatError::BadToken)
    );
}

#[test]
fn test_parse_grid_line_overflow() {
    let parsed = parse_picross_grid_line(&bytes("4294967295")).unwrap();
    assert_eq!(parsed, vec![vec![4294967295]]);
    assert_eq!(
        parse_picross_grid_line(&bytes("4294967296")),
        Err(FormatError::BadToken)
    );
}

#[test]
fn test_parse_puzzle_basic() {
    let p = parse_puzzle(&bytes("1 | 2 3\n4 |\n")).unwrap();
    assert_eq!(p.cols, vec![vec![1], vec![2, 3]]);
    assert_eq!(p.rows, vec![vec![4], vec![]]);
    assert_eq!(p.size(), 2);
}

#[test]
fn test_parse_puzzle_surrounding_whitespace() {
    let p = parse_puzzle(&bytes("\n\n  1 | 2\r\n3 | 4  \n\n")).unwrap();
    assert_eq!(p.cols, vec![vec![1], vec![2]]);
    assert_eq!(p.rows, vec![vec![3], vec![4]]);
}

#[test]
fn test_parse_puzzle_wrong_line_count() {
    assert_eq!(parse_puzzle(&bytes("1 | 2")), Err(FormatError::WrongLineCount));
    assert_eq!(
        parse_puzzle(&bytes("1\n2\n3")),
        Err(FormatError::WrongLineCount)
    );
    assert_eq!(parse_puzzle(&bytes("")), Err(FormatError::WrongLineCount));
    assert_eq!(parse_puzzle(&bytes("   \n  ")), Err(FormatError::WrongLineCount));
}

#[test]
fn test_parse_puzzle_bad_token() {
    assert_eq!(parse_puzzle(&bytes("1 x | 2\n1 | 2")), Err(FormatError::BadToken));
    assert_eq!(parse_puzzle(&bytes("1 | 2\n1 | 2.5")), Err(FormatError::BadToken));
}

#[test]
fn test_parse_puzzle_not_square() {
    assert_eq!(parse_puzzle(&bytes("1 | 2\n3")), Err(FormatError::NotSquare));
}

#[test]
fn test_parse_board_basic() {
    let b = parse_board(&bytes("#.\n.#\n")).unwrap();
    assert_eq!(
        b,
        Board {
            table: vec![
                vec![Cell::Filled, Cell::Empty],
                vec![Cell::Empty, Cell::Filled],
            ]
        }
    );
    assert_eq!(b.size(), 2);
}

#[test]
fn test_parse_board_empty_text() {
    let b = parse_board(&bytes("")).unwrap();
    assert_eq!(b.table.len(), 0);
    assert_eq!(b.size(), 0);
}

#[test]
fn test_parse_board_bad_cell() {
    assert_eq!(parse_board(&bytes("#x\n##")), Err(FormatError::BadCell));
}

#[test]
fn test_parse_board_size_mismatch() {
    assert_eq!(parse_board(&bytes("##\n#")), Err(FormatError::SizeMismatch));
    assert_eq!(parse_board(&bytes("###\n###")), Err(FormatError::SizeMismatch));
}

#[test]
fn test_parse_round_trip_with_derive() {
    // A parsed board's derived clues parse back to the same puzzle.
    let board = parse_board(&bytes("##.\n..#\n###")).unwrap();
    let derived = picross_solver::board::derive_puzzle(&board);
    assert_eq!(
        derived,
        Puzzle {
            rows: vec![vec![2], vec![1], vec![3]],
            cols: vec![vec![1, 1], vec![1, 1], vec![2]],
        }
    );
}
