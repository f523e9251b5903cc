use picross_solver::blocks::{blocks_to_grid_text, blocks_to_puzzle_text};
use picross_solver::board::{Cell, FullSolution, Puzzle};
use picross_solver::parse::{parse_board, parse_puzzle};

fn bytes(text: &str) -> Vec<u8> {
    text.as_bytes().to_vec()
}

#[test]
fn test_cell_repr() {
    assert_eq!(Cell::Filled.repr(), '#');
    assert_eq!(Cell::Empty.repr(), '.');
}

#[test]
fn test_board_render_round_trip() {
    let text = "#.\n.#\n";
    let board = parse_board(&bytes(text)).unwrap();
    assert_eq!(board.render(), bytes(text));
}

#[test]
fn test_board_render_smiley() {
    let text = "\
#####...#####
#####...#####
###.#...###.#
##..#...##..#
#####.#.#####
......#......
.....##......
.###.....###.
.#..#####..#.
.##.......##.
..##.....##..
...#######...
.............
";
    let board = parse_board(&bytes(text)).unwrap();
    assert_eq!(board.render(), bytes(text));
}

#[test]
fn test_full_solution_render_small() {
    let puzzle = parse_puzzle(&bytes("1 | 1\n1 | 1")).unwrap();
    let board = parse_board(&bytes("#.\n.#")).unwrap();
    let full = FullSolution { board, puzzle };
    assert_eq!(full.render(), bytes(" 11\n1#.\n1.#\n"));
}

#[test]
fn test_full_solution_render_multi_digit() {
    let puzzle = Puzzle {
        rows: vec![vec![], vec![10]],
        cols: vec![vec![10], vec![]],
    };
    let board = parse_board(&bytes("#.\n##")).unwrap();
    let full = FullSolution { board, puzzle };
    // One header line: two left-padding spaces would be wrong; left is 1,
    // so one space, then "10" for the first column and " " for the second.
    assert_eq!(full.render(), bytes(" 10 \n #.\n10##\n"));
}

#[test]
fn test_full_solution_render_uneven_clue_heights() {
    // Row clues are right-aligned against the grid: the shorter list gets
    // its padding in front.
    let puzzle = Puzzle {
        rows: vec![vec![1, 1], vec![2]],
        cols: vec![vec![2], vec![1]],
    };
    let board = parse_board(&bytes("#.\n##")).unwrap();
    let full = FullSolution { board, puzzle };
    assert_eq!(full.render(), bytes("  21\n11#.\n 2##\n"));
}

#[test]
fn test_full_solution_render_bottom_aligned_columns() {
    // Column clues are stacked so every list ends just above the grid:
    // the shorter list leaves its blank on the upper line.
    let puzzle = Puzzle {
        rows: vec![vec![2], vec![2]],
        cols: vec![vec![1, 1], vec![2]],
    };
    let board = parse_board(&bytes("##\n##")).unwrap();
    let full = FullSolution { board, puzzle };
    assert_eq!(full.render(), bytes(" 1 \n 12\n2##\n2##\n"));
}

#[test]
fn test_blocks_to_puzzle_text() {
    let blocks = vec![vec![true, false], vec![true, true]];
    assert_eq!(blocks_to_puzzle_text(&blocks), bytes("1 | 2 \n2 | 1 \n"));
}

#[test]
fn test_blocks_to_puzzle_text_empty_group() {
    let blocks = vec![vec![false, false], vec![true, true]];
    assert_eq!(blocks_to_puzzle_text(&blocks), bytes("| 2 \n1 | 1 \n"));
}

#[test]
fn test_blocks_to_grid_text() {
    let blocks = vec![vec![true, false], vec![true, true]];
    assert_eq!(blocks_to_grid_text(&blocks), bytes("##\n.#\n"));
}
