use picross_solver::board::{derive_puzzle, Board, Cell, Puzzle};
use picross_solver::parse::{parse_board, parse_puzzle};
use picross_solver::solve;
use picross_solver::solvers::dumb;

const SMILEY_PUZZLE: &str = "\
5   | 5 3 | 3 1 1 2 | 2 1 1 2 | 5 1 1 | 1 1 1 | 3 1 1 | 1 1 | 5 1 1 | 5 1 2 | 3 1 1 2 | 2 1 3 | 5
5 5 | 5 5 | 3 1 3 1 | 2 1 2 1 | 5 1 5 | 1     | 2     | 3 3 | 1 5 1 | 2 2   | 2 2     | 7     |
";

const SMILEY_BOARD: &str = "\
#####...#####
#####...#####
###.#...###.#
##..#...##..#
#####.#.#####
......#......
.....##......
.###.....###.
.#..#####..#.
.##.......##.
..##.....##..
...#######...
.............
";

fn puzzle_of(text: &str) -> Puzzle {
    parse_puzzle(&text.as_bytes().to_vec()).expect("puzzle text should parse")
}

fn board_of(text: &str) -> Board {
    parse_board(&text.as_bytes().to_vec()).expect("board text should parse")
}

#[test]
fn test_puzzle_from_board() {
    let puzzle = puzzle_of(SMILEY_PUZZLE);
    let board = board_of(SMILEY_BOARD);
    assert_eq!(puzzle, derive_puzzle(&board));
}

#[test]
fn test_derive_puzzle_idempotent() {
    let board = board_of(SMILEY_BOARD);
    assert_eq!(derive_puzzle(&board), derive_puzzle(&board));
}

#[test]
fn test_is_valid_col() {
    let puzzle = puzzle_of(SMILEY_PUZZLE);
    let board = board_of(SMILEY_BOARD);
    for i in 0..board.size() {
        assert!(dumb::is_valid_col(&puzzle, &board, i), "at index {i}");
        assert!(solve::is_valid_col(&puzzle, &board, i), "at index {i}");
    }
}

#[test]
fn test_is_valid_col_invalid_board() {
    let puzzle = puzzle_of(SMILEY_PUZZLE);
    let board = board_of(
        "\
#####...#####
#####...#####
###.#...###.#
###.#...##..#
#####.#.#####
#....##......
.#...##......
.####.#..###.
.#.######.###
.##....#####.
..##.....##..
...#######...
...........#.
",
    );
    for i in 0..board.size() {
        assert!(!solve::is_valid_col(&puzzle, &board, i), "at index {i}");
        assert!(!dumb::is_valid_col(&puzzle, &board, i), "at index {i}");
    }
}

#[test]
fn test_is_valid_row() {
    let puzzle = puzzle_of(SMILEY_PUZZLE);
    let board = board_of(SMILEY_BOARD);
    for i in 0..board.size() {
        assert!(dumb::is_valid_row(&puzzle, &board, i), "at index {i}");
        assert!(solve::is_valid_row(&puzzle, &board, i), "at index {i}");
    }
}

#[test]
fn test_is_valid_accepts_solution() {
    let puzzle = puzzle_of(SMILEY_PUZZLE);
    let board = board_of(SMILEY_BOARD);
    assert!(dumb::is_valid(&puzzle, &board));
    assert!(solve::is_valid(&puzzle, &board));
}

#[test]
fn test_is_valid_rejects_wrong_board() {
    let puzzle = puzzle_of(SMILEY_PUZZLE);
    let mut board = board_of(SMILEY_BOARD);
    board.table[0][0] = Cell::Empty;
    assert!(!dumb::is_valid(&puzzle, &board));
    assert!(!solve::is_valid(&puzzle, &board));
}

#[test]
fn test_solve() {
    let puzzle = puzzle_of(SMILEY_PUZZLE);
    let board = board_of(SMILEY_BOARD);
    assert_eq!(board, dumb::solve(&puzzle).expect("board to be solvable"));
}

#[test]
fn test_solve_one_by_one_empty() {
    let puzzle = Puzzle { rows: vec![vec![]], cols: vec![vec![]] };
    let solved = dumb::solve(&puzzle).expect("solvable");
    assert_eq!(solved.table, vec![vec![Cell::Empty]]);
    let solved = solve::solve(&puzzle).expect("solvable");
    assert_eq!(solved.table, vec![vec![Cell::Empty]]);
}

#[test]
fn test_solve_one_by_one_filled() {
    let puzzle = Puzzle { rows: vec![vec![1]], cols: vec![vec![1]] };
    let solved = dumb::solve(&puzzle).expect("solvable");
    assert_eq!(solved.table, vec![vec![Cell::Filled]]);
    let solved = solve::solve(&puzzle).expect("solvable");
    assert_eq!(solved.table, vec![vec![Cell::Filled]]);
}

#[test]
fn test_solve_all_empty_puzzle() {
    let puzzle = puzzle_of("||\n||");
    assert_eq!(puzzle.size(), 3);
    let expected = vec![vec![Cell::Empty; 3]; 3];
    assert_eq!(dumb::solve(&puzzle).expect("solvable").table, expected);
    assert_eq!(solve::solve(&puzzle).expect("solvable").table, expected);
}

#[test]
fn test_unsolvable_mismatched_totals() {
    // One filled cell demanded by the row clues, none by the column clues.
    let puzzle = Puzzle { rows: vec![vec![1]], cols: vec![vec![]] };
    assert!(dumb::solve(&puzzle).is_none());
    assert!(solve::solve(&puzzle).is_none());
}

#[test]
fn test_unsolvable_two_by_two() {
    // Row totals sum to 2, column totals to 1.
    let puzzle = Puzzle { rows: vec![vec![2], vec![]], cols: vec![vec![1], vec![]] };
    assert!(dumb::solve(&puzzle).is_none());
    assert!(solve::solve(&puzzle).is_none());
}

#[test]
fn test_solve_plain_two_by_two() {
    let puzzle = Puzzle { rows: vec![vec![2], vec![1]], cols: vec![vec![2], vec![1]] };
    let solved = solve::solve(&puzzle).expect("solvable");
    assert_eq!(
        solved.table,
        vec![vec![Cell::Filled, Cell::Filled], vec![Cell::Filled, Cell::Empty]]
    );
    let solved = dumb::solve(&puzzle).expect("solvable");
    assert_eq!(
        solved.table,
        vec![vec![Cell::Filled, Cell::Filled], vec![Cell::Filled, Cell::Empty]]
    );
}

#[test]
fn test_solvers_agree_on_multiple_solutions() {
    // Two solutions exist (the two diagonals); both solvers return the
    // same one, the board preferred in Filled-first row-major order.
    let puzzle = Puzzle { rows: vec![vec![1], vec![1]], cols: vec![vec![1], vec![1]] };
    let a = solve::solve(&puzzle).expect("solvable");
    let b = dumb::solve(&puzzle).expect("solvable");
    assert_eq!(a, b);
    assert_eq!(
        a.table,
        vec![vec![Cell::Filled, Cell::Empty], vec![Cell::Empty, Cell::Filled]]
    );
}

#[test]
fn test_solve_derived_puzzle() {
    // A puzzle derived from a board is solvable, and whatever board comes
    // back derives that same puzzle (it need not be the original board).
    let board = board_of("##.\n..#\n###");
    let puzzle = derive_puzzle(&board);
    let solved = dumb::solve(&puzzle).expect("derived puzzle must be solvable");
    assert_eq!(derive_puzzle(&solved), puzzle);
    let solved = solve::solve(&puzzle).expect("derived puzzle must be solvable");
    assert_eq!(derive_puzzle(&solved), puzzle);
}

#[test]
fn test_from_row_and_from_col() {
    let board = board_of("##.\n..#\n###");
    assert_eq!(board.from_row(0), vec![2]);
    assert_eq!(board.from_row(1), vec![1]);
    assert_eq!(board.from_row(2), vec![3]);
    assert_eq!(board.from_col(0), vec![1, 1]);
    assert_eq!(board.from_col(1), vec![1, 1]);
    assert_eq!(board.from_col(2), vec![2]);
}

#[test]
fn test_validator_failure_is_monotone() {
    // Column 0 starts with two filled cells against clues [1, 2]: once the
    // prefix fails, no extension of the same prefix passes.
    let puzzle = Puzzle {
        rows: vec![vec![4]; 4],
        cols: vec![vec![1, 2], vec![4], vec![4], vec![4]],
    };
    let prefix = board_of("#...\n#...\n....\n....");
    assert!(!solve::is_valid_col(&puzzle, &prefix, 0));
    let extended = board_of("#...\n#...\n....\n#...");
    assert!(!solve::is_valid_col(&puzzle, &extended, 0));
    let extended_more = board_of("#...\n#...\n#...\n#...");
    assert!(!solve::is_valid_col(&puzzle, &extended_more, 0));
}
