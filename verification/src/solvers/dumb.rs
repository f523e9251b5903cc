//! A plain depth-first solver with one extra refinement over the search in
//! `crate::solve`: whenever the scan crosses into a new row, the row just
//! completed must match its clue list exactly before the search goes any
//! deeper.  This catches rows that the permissive per-cell check let
//! through, and prunes them a whole row earlier than the final check would.

use crate::board::{clues_eq, col_of, grid_wf, is_solution, Board, Cell, Puzzle};
use crate::runs::{
    as_ints, consistent_runs, lemma_as_ints_eq, line_consistent, runs_of,
};
use crate::solve::{
    cell_at, filled_first_from, lemma_filled_first_weaken, lemma_lex_linear,
    lemma_partial_lines_consistent, lemma_prefix_eq_extend, lemma_prefix_eq_restrict,
    lemma_prefix_eq_zero, lemma_suffix_empty_extend, lemma_update_preserves_wf,
    no_solution_with_prefix, prefix_eq, suffix_empty,
};
use vstd::arithmetic::div_mod::{lemma_fundamental_div_mod, lemma_mod_bound};
use vstd::prelude::*;

verus! {

/// Check column `col` of a partially assigned board against its clue list:
/// the runs derived so far must be no more numerous than the clues, and
/// each must stay within its clue's bound.
pub fn is_valid_col(puzzle: &Puzzle, solution: &Board, col: usize) -> (r: bool)
    requires
        grid_wf(solution@),
        solution@.len() <= u32::MAX,
        col < solution@.len(),
        col < puzzle.cols@.len(),
    ensures
        r == line_consistent(puzzle.cols@[col as int]@, col_of(solution@, col as int)),
{
    let sub = solution.from_col(col);
    let ghost d = runs_of(col_of(solution@, col as int));
    if sub.len() > puzzle.cols[col].len() {
        return false;
    }
    let mut k: usize = 0;
    while k < sub.len()
        invariant
            k <= sub@.len(),
            as_ints(sub@) == d,
            d == runs_of(col_of(solution@, col as int)),
            d.len() == sub@.len(),
            sub@.len() <= puzzle.cols@[col as int]@.len(),
            col < puzzle.cols@.len(),
            forall|j: int| 0 <= j < k ==> #[trigger] d[j] <= puzzle.cols@[col as int]@[j] as int,
        decreases sub@.len() - k,
    {
        if sub[k] > puzzle.cols[col][k] {
            proof {
                assert(d[k as int] == sub@[k as int] as int);
                let t = puzzle.cols@[col as int]@;
                assert(d[k as int] > t[k as int] as int);
                if consistent_runs(t, d) {
                    assert(d[k as int] <= t[k as int] as int);
                }
                assert(!line_consistent(t, col_of(solution@, col as int)));
            }
            return false;
        }
        proof {
            assert(d[k as int] == sub@[k as int] as int);
        }
        k += 1;
    }
    true
}

/// Check row `row` of a partially assigned board against its clue list,
/// symmetrically to `is_valid_col`.
pub fn is_valid_row(puzzle: &Puzzle, solution: &Board, row: usize) -> (r: bool)
    requires
        grid_wf(solution@),
        solution@.len() <= u32::MAX,
        row < solution@.len(),
        row < puzzle.rows@.len(),
    ensures
        r == line_consistent(puzzle.rows@[row as int]@, solution@[row as int]),
{
    let sub = solution.from_row(row);
    let ghost d = runs_of(solution@[row as int]);
    if sub.len() > puzzle.rows[row].len() {
        return false;
    }
    let mut k: usize = 0;
    while k < sub.len()
        invariant
            k <= sub@.len(),
            as_ints(sub@) == d,
            d == runs_of(solution@[row as int]),
            d.len() == sub@.len(),
            sub@.len() <= puzzle.rows@[row as int]@.len(),
            row < puzzle.rows@.len(),
            forall|j: int| 0 <= j < k ==> #[trigger] d[j] <= puzzle.rows@[row as int]@[j] as int,
        decreases sub@.len() - k,
    {
        if sub[k] > puzzle.rows[row][k] {
            proof {
                assert(d[k as int] == sub@[k as int] as int);
                let t = puzzle.rows@[row as int]@;
                assert(d[k as int] > t[k as int] as int);
                if consistent_runs(t, d) {
                    assert(d[k as int] <= t[k as int] as int);
                }
                assert(!line_consistent(t, solution@[row as int]));
            }
            return false;
        }
        proof {
            assert(d[k as int] == sub@[k as int] as int);
        }
        k += 1;
    }
    true
}

/// Decide whether `solution` solves `puzzle`: the derived clue lists must
/// equal the puzzle's clue lists exactly, on both axes.
pub fn is_valid(puzzle: &Puzzle, solution: &Board) -> (r: bool)
    requires
        grid_wf(solution@),
        solution@.len() <= u32::MAX,
    ensures
        r == is_solution(*puzzle, solution@),
{
    let n = solution.size();
    if puzzle.rows.len() != n || puzzle.cols.len() != n {
        return false;
    }
    let mut i: usize = 0;
    while i < n
        invariant
            grid_wf(solution@),
            solution@.len() <= u32::MAX,
            n == solution@.len(),
            puzzle.rows@.len() == n,
            puzzle.cols@.len() == n,
            i <= n,
            forall|k: int| 0 <= k < i ==> as_ints(#[trigger] puzzle.rows@[k]@) == runs_of(
                solution@[k],
            ),
        decreases n - i,
    {
        let derived = solution.from_row(i);
        let same = clues_eq(&puzzle.rows[i], &derived);
        proof {
            lemma_as_ints_eq(puzzle.rows@[i as int]@, derived@);
        }
        if !same {
            return false;
        }
        i += 1;
    }
    let mut j: usize = 0;
    while j < n
        invariant
            grid_wf(solution@),
            solution@.len() <= u32::MAX,
            n == solution@.len(),
            puzzle.rows@.len() == n,
            puzzle.cols@.len() == n,
            j <= n,
            forall|k: int| 0 <= k < n ==> as_ints(#[trigger] puzzle.rows@[k]@) == runs_of(
                solution@[k],
            ),
            forall|k: int| 0 <= k < j ==> as_ints(#[trigger] puzzle.cols@[k]@) == runs_of(
                col_of(solution@, k),
            ),
        decreases n - j,
    {
        let derived = solution.from_col(j);
        let same = clues_eq(&puzzle.cols[j], &derived);
        proof {
            lemma_as_ints_eq(puzzle.cols@[j as int]@, derived@);
        }
        if !same {
            return false;
        }
        j += 1;
    }
    true
}

/// Depth-first assignment from row-major index `i` onwards, with the
/// completed-row refinement: on entering a new row, the previous row's
/// derived clues must equal its target exactly.  The contract is the same
/// as in `crate::solve`: sound, complete, prefix-preserving, and returning
/// the Filled-first preferred solution.
pub fn solve_backtracking(puzzle: &Puzzle, i: usize, board: Board) -> (r: Option<Board>)
    requires
        puzzle.rows@.len() == puzzle.cols@.len(),
        board@.len() == puzzle.rows@.len(),
        grid_wf(board@),
        board@.len() <= u32::MAX,
        board@.len() * board@.len() <= usize::MAX,
        i <= board@.len() * board@.len(),
        suffix_empty(board@, board@.len() as int, i as int),
    ensures
        r is Some ==> r.unwrap()@.len() == puzzle.rows@.len() && grid_wf(r.unwrap()@)
            && is_solution(*puzzle, r.unwrap()@),
        r is Some ==> prefix_eq(r.unwrap()@, board@, board@.len() as int, i as int),
        r is Some ==> forall|g: Seq<Seq<Cell>>|
            g.len() == board@.len() && grid_wf(g) && #[trigger] prefix_eq(
                g,
                board@,
                board@.len() as int,
                i as int,
            ) && is_solution(*puzzle, g) && g != r.unwrap()@ ==> filled_first_from(
                r.unwrap()@,
                g,
                board@.len() as int,
                i as int,
            ),
        r is None ==> no_solution_with_prefix(*puzzle, board@, board@.len() as int, i as int),
    decreases board@.len() * board@.len() - i,
{
    let ghost board0 = board@;
    let ghost n_s = board@.len() as int;
    let n = puzzle.size();
    if i >= n * n {
        proof {
            assert forall|g: Seq<Seq<Cell>>|
                g.len() == n_s && grid_wf(g) && #[trigger] prefix_eq(g, board0, n_s, i as int)
                implies g == board0 by {
                assert forall|r2: int| 0 <= r2 < n_s implies g[r2] == board0[r2] by {
                    assert(g[r2].len() == n_s);
                    assert(board0[r2].len() == n_s);
                    assert forall|c2: int| 0 <= c2 < n_s implies g[r2][c2] == board0[r2][c2] by {
                        assert(r2 * n_s + c2 < n_s * n_s) by (nonlinear_arith)
                            requires
                                0 <= r2 < n_s,
                                0 <= c2 < n_s,
                        ;
                    }
                    assert(g[r2] =~= board0[r2]);
                }
                assert(g =~= board0);
            }
        }
        if is_valid(puzzle, &board) {
            proof {
                assert(prefix_eq(board0, board0, n_s, i as int));
                assert forall|g: Seq<Seq<Cell>>|
                    g.len() == n_s && grid_wf(g) && #[trigger] prefix_eq(g, board0, n_s, i as int)
                        && is_solution(*puzzle, g) && g != board0
                    implies filled_first_from(board0, g, n_s, i as int) by {
                    assert(g == board0);
                    assert(false);
                }
            }
            return Some(board);
        } else {
            proof {
                assert(no_solution_with_prefix(*puzzle, board0, n_s, i as int));
            }
            return None;
        }
    }
    proof {
        if n_s == 0 {
            assert(false);
        }
    }
    let x = i / n;
    let y = i % n;
    proof {
        lemma_fundamental_div_mod(i as int, n_s);
        lemma_mod_bound(i as int, n_s);
        assert(x as int == (i as int) / n_s);
        assert(y as int == (i as int) % n_s);
        assert(i as int == n_s * ((i as int) / n_s) + (i as int) % n_s);
        assert((x as int) * n_s + (y as int) == i as int);
        assert((x as int) < n_s) by (nonlinear_arith)
            requires
                n_s * (x as int) + (y as int) == i as int,
                0 <= y as int,
                (i as int) < n_s * n_s,
                0 < n_s,
        ;
    }

    // Do not recurse while the row just completed misses its clue list.
    if x > 0 && y == 0 {
        let prev = board.from_row(x - 1);
        let closed = clues_eq(&puzzle.rows[x - 1], &prev);
        proof {
            lemma_as_ints_eq(puzzle.rows@[x - 1]@, prev@);
        }
        if !closed {
            proof {
                let xm = x as int - 1;
                assert forall|g: Seq<Seq<Cell>>|
                    g.len() == n_s && grid_wf(g) && #[trigger] prefix_eq(g, board0, n_s, i as int)
                    implies !is_solution(*puzzle, g) by {
                    if is_solution(*puzzle, g) {
                        assert(board0[xm].len() == n_s);
                        assert(g[xm].len() == n_s);
                        assert forall|c2: int| 0 <= c2 < n_s implies board0[xm][c2]
                            == g[xm][c2] by {
                            lemma_lex_linear(n_s, xm, c2, x as int, y as int);
                            assert(g[xm][c2] == board0[xm][c2]);
                        }
                        assert(board0[xm] =~= g[xm]);
                        assert(as_ints(puzzle.rows@[xm]@) == runs_of(g[xm]));
                        assert(as_ints(prev@) == runs_of(board0[xm]));
                        assert(puzzle.rows@[xm]@ == prev@);
                        assert(false);
                    }
                }
                assert(no_solution_with_prefix(*puzzle, board0, n_s, i as int));
            }
            return None;
        }
    }

    let mut b = board;

    // First trial: Filled.
    b.set_cell(x, y, Cell::Filled);
    let ghost bf = b@;
    proof {
        lemma_update_preserves_wf(board0, n_s, x as int, y as int, Cell::Filled);
        lemma_suffix_empty_extend(board0, n_s, x as int, y as int, Cell::Filled);
        assert(suffix_empty(bf, n_s, i as int + 1));
    }
    if is_valid_col(puzzle, &b, y) && is_valid_row(puzzle, &b, x) {
        match solve_backtracking(puzzle, i + 1, b.duplicate()) {
            Some(solved) => {
                proof {
                    lemma_prefix_eq_restrict(
                        solved@,
                        board0,
                        n_s,
                        x as int,
                        y as int,
                        Cell::Filled,
                    );
                    assert(prefix_eq(solved@, board0, n_s, i as int));
                    assert forall|g: Seq<Seq<Cell>>|
                        g.len() == n_s && grid_wf(g) && #[trigger] prefix_eq(
                            g,
                            board0,
                            n_s,
                            i as int,
                        ) && is_solution(*puzzle, g) && g != solved@
                        implies filled_first_from(solved@, g, n_s, i as int) by {
                        if g[x as int][y as int] == Cell::Filled {
                            lemma_prefix_eq_extend(
                                g,
                                board0,
                                n_s,
                                x as int,
                                y as int,
                                Cell::Filled,
                            );
                            assert(prefix_eq(g, bf, n_s, i as int + 1));
                            assert(filled_first_from(solved@, g, n_s, i as int + 1));
                            lemma_filled_first_weaken(solved@, g, n_s, i as int + 1, i as int);
                        } else {
                            // The returned board holds Filled at (x, y) and
                            // g holds Empty: index i is their first difference.
                            assert forall|r2: int, c2: int|
                                #![trigger g[r2][c2]]
                                #![trigger solved@[r2][c2]]
                                0 <= r2 < n_s && 0 <= c2 < n_s && r2 * n_s + c2 < i as int
                                implies g[r2][c2] == solved@[r2][c2] by {
                                assert(g[r2][c2] == board0[r2][c2]);
                                assert(solved@[r2][c2] == board0[r2][c2]);
                            }
                            assert(prefix_eq(g, solved@, n_s, i as int));
                            assert(solved@[x as int][y as int] == bf[x as int][y as int]);
                            assert(cell_at(solved@, n_s, i as int) == Cell::Filled);
                            assert(cell_at(g, n_s, i as int) == Cell::Empty);
                            assert(filled_first_from(solved@, g, n_s, i as int));
                        }
                    }
                }
                return Some(solved);
            },
            None => {
                proof {
                    assert(no_solution_with_prefix(*puzzle, bf, n_s, i as int + 1));
                }
            },
        }
    } else {
        proof {
            assert forall|g: Seq<Seq<Cell>>|
                g.len() == n_s && grid_wf(g) && #[trigger] prefix_eq(g, bf, n_s, i as int + 1)
                implies !is_solution(*puzzle, g) by {
                if is_solution(*puzzle, g) {
                    lemma_partial_lines_consistent(puzzle, g, bf, n_s, x as int, y as int);
                    assert(false);
                }
            }
            assert(no_solution_with_prefix(*puzzle, bf, n_s, i as int + 1));
        }
    }

    // Second trial: Empty.
    b.set_cell(x, y, Cell::Empty);
    let ghost be = b@;
    proof {
        assert(bf[x as int].update(y as int, Cell::Empty) =~= board0[x as int].update(
            y as int,
            Cell::Empty,
        ));
        assert(be =~= board0.update(x as int, board0[x as int].update(y as int, Cell::Empty)));
        lemma_update_preserves_wf(board0, n_s, x as int, y as int, Cell::Empty);
        lemma_suffix_empty_extend(board0, n_s, x as int, y as int, Cell::Empty);
        assert(suffix_empty(be, n_s, i as int + 1));
    }
    if is_valid_col(puzzle, &b, y) && is_valid_row(puzzle, &b, x) {
        match solve_backtracking(puzzle, i + 1, b.duplicate()) {
            Some(solved) => {
                proof {
                    lemma_prefix_eq_restrict(
                        solved@,
                        board0,
                        n_s,
                        x as int,
                        y as int,
                        Cell::Empty,
                    );
                    assert(prefix_eq(solved@, board0, n_s, i as int));
                    assert forall|g: Seq<Seq<Cell>>|
                        g.len() == n_s && grid_wf(g) && #[trigger] prefix_eq(
                            g,
                            board0,
                            n_s,
                            i as int,
                        ) && is_solution(*puzzle, g) && g != solved@
                        implies filled_first_from(solved@, g, n_s, i as int) by {
                        if g[x as int][y as int] == Cell::Filled {
                            // No solution extends the Filled trial here, so
                            // g cannot be one.
                            lemma_prefix_eq_extend(
                                g,
                                board0,
                                n_s,
                                x as int,
                                y as int,
                                Cell::Filled,
                            );
                            assert(prefix_eq(g, bf, n_s, i as int + 1));
                            assert(!is_solution(*puzzle, g));
                            assert(false);
                        } else {
                            lemma_prefix_eq_extend(
                                g,
                                board0,
                                n_s,
                                x as int,
                                y as int,
                                Cell::Empty,
                            );
                            assert(prefix_eq(g, be, n_s, i as int + 1));
                            assert(filled_first_from(solved@, g, n_s, i as int + 1));
                            lemma_filled_first_weaken(solved@, g, n_s, i as int + 1, i as int);
                        }
                    }
                }
                return Some(solved);
            },
            None => {
                proof {
                    assert(no_solution_with_prefix(*puzzle, be, n_s, i as int + 1));
                }
            },
        }
    } else {
        proof {
            assert forall|g: Seq<Seq<Cell>>|
                g.len() == n_s && grid_wf(g) && #[trigger] prefix_eq(g, be, n_s, i as int + 1)
                implies !is_solution(*puzzle, g) by {
                if is_solution(*puzzle, g) {
                    lemma_partial_lines_consistent(puzzle, g, be, n_s, x as int, y as int);
                    assert(false);
                }
            }
            assert(no_solution_with_prefix(*puzzle, be, n_s, i as int + 1));
        }
    }

    // Both trials exhausted: no grid extending the prefix can solve the
    // puzzle, because its cell at (x, y) would have to be Filled or Empty.
    proof {
        assert forall|g: Seq<Seq<Cell>>|
            g.len() == n_s && grid_wf(g) && #[trigger] prefix_eq(g, board0, n_s, i as int)
            implies !is_solution(*puzzle, g) by {
            if is_solution(*puzzle, g) {
                let v = g[x as int][y as int];
                if v == Cell::Filled {
                    lemma_prefix_eq_extend(g, board0, n_s, x as int, y as int, Cell::Filled);
                    assert(prefix_eq(g, bf, n_s, i as int + 1));
                } else {
                    lemma_prefix_eq_extend(g, board0, n_s, x as int, y as int, Cell::Empty);
                    assert(prefix_eq(g, be, n_s, i as int + 1));
                }
                assert(false);
            }
        }
        assert(no_solution_with_prefix(*puzzle, board0, n_s, i as int));
    }
    None
}

/// Solve a square puzzle: search from an all-`Empty` board.  Returns
/// nothing exactly when no square grid solves the puzzle; otherwise the
/// first solution in the search's fixed order, the one preferred over
/// every other solution in the Filled-first row-major sense.
pub fn solve(puzzle: &Puzzle) -> (r: Option<Board>)
    requires
        puzzle.rows@.len() == puzzle.cols@.len(),
        puzzle.rows@.len() <= u32::MAX,
        puzzle.rows@.len() * puzzle.rows@.len() <= usize::MAX,
    ensures
        r is Some ==> r.unwrap()@.len() == puzzle.rows@.len() && grid_wf(r.unwrap()@)
            && is_solution(*puzzle, r.unwrap()@),
        r is Some ==> forall|g: Seq<Seq<Cell>>|
            grid_wf(g) && #[trigger] is_solution(*puzzle, g) && g != r.unwrap()@
                ==> filled_first_from(r.unwrap()@, g, puzzle.rows@.len() as int, 0),
        r is None ==> forall|g: Seq<Seq<Cell>>| grid_wf(g) ==> !(#[trigger] is_solution(
            *puzzle,
            g,
        )),
{
    let n = puzzle.size();
    let mut table: Vec<Vec<Cell>> = Vec::new();
    let mut i: usize = 0;
    while i < n
        invariant
            i <= n,
            table@.len() == i,
            forall|k: int| 0 <= k < i ==> (#[trigger] table@[k]@).len() == n && forall|c: int|
                0 <= c < n ==> table@[k]@[c] == Cell::Empty,
        decreases n - i,
    {
        let mut row: Vec<Cell> = Vec::new();
        let mut j: usize = 0;
        while j < n
            invariant
                j <= n,
                row@.len() == j,
                forall|c: int| 0 <= c < j ==> #[trigger] row@[c] == Cell::Empty,
            decreases n - j,
        {
            row.push(Cell::Empty);
            j += 1;
        }
        table.push(row);
        i += 1;
    }
    let board = Board { table };
    let ghost board0 = board@;
    proof {
        assert(board0.len() == n);
        assert(grid_wf(board0));
        assert forall|r2: int, c2: int|
            #![trigger board0[r2][c2]]
            0 <= r2 < n && 0 <= c2 < n && r2 * (n as int) + c2 >= 0 implies board0[r2][c2]
            == Cell::Empty by {}
        assert(suffix_empty(board0, n as int, 0));
    }
    let result = solve_backtracking(puzzle, 0, board);
    proof {
        if result is None {
            assert forall|g: Seq<Seq<Cell>>| grid_wf(g) implies !(#[trigger] is_solution(
                *puzzle,
                g,
            )) by {
                if is_solution(*puzzle, g) {
                    assert(g.len() == puzzle.rows@.len());
                    lemma_prefix_eq_zero(g, board0, n as int);
                    assert(prefix_eq(g, board0, n as int, 0));
                    assert(false);
                }
            }
        } else {
            assert forall|g: Seq<Seq<Cell>>|
                grid_wf(g) && #[trigger] is_solution(*puzzle, g) && g != result.unwrap()@
                implies filled_first_from(result.unwrap()@, g, puzzle.rows@.len() as int, 0) by {
                assert(g.len() == puzzle.rows@.len());
                lemma_prefix_eq_zero(g, board0, n as int);
                assert(prefix_eq(g, board0, n as int, 0));
            }
        }
    }
    result
}

} // verus!
