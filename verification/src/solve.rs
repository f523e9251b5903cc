//! The backtracking search.  Cells are assigned one at a time in row-major
//! order; after every assignment the affected row and column are checked
//! against the clue lists, and inconsistent branches are pruned.
//!
//! The search is proved sound (an answer solves the puzzle) and complete
//! (if it reports no answer, no square grid solves the puzzle).

use crate::board::{clues_eq, col_of, grid_wf, is_solution, Board, Cell, Puzzle};
use crate::runs::{
    as_ints, consistent_runs, lemma_as_ints_eq, lemma_consistent_run_prefix,
    lemma_runs_ignore_trailing_empty, lemma_runs_take_prefix, line_consistent, runs_of,
};
use vstd::arithmetic::div_mod::{lemma_fundamental_div_mod, lemma_mod_bound};
use vstd::prelude::*;

verus! {

/// Cells at row-major index below `i` agree between the two grids.
pub open spec fn prefix_eq(g: Seq<Seq<Cell>>, h: Seq<Seq<Cell>>, n: int, i: int) -> bool {
    forall|r: int, c: int|
        #![trigger g[r][c]]
        #![trigger h[r][c]]
        0 <= r < n && 0 <= c < n && r * n + c < i ==> g[r][c] == h[r][c]
}

/// Cells at row-major index `i` or above are all `Empty`.
pub open spec fn suffix_empty(g: Seq<Seq<Cell>>, n: int, i: int) -> bool {
    forall|r: int, c: int|
        #![trigger g[r][c]]
        0 <= r < n && 0 <= c < n && r * n + c >= i ==> g[r][c] == Cell::Empty
}

/// No grid that agrees with `base` on all cells below row-major index `i`
/// solves the puzzle.
pub open spec fn no_solution_with_prefix(p: Puzzle, base: Seq<Seq<Cell>>, n: int, i: int) -> bool {
    forall|g: Seq<Seq<Cell>>|
        g.len() == n && grid_wf(g) && #[trigger] prefix_eq(g, base, n, i) ==> !is_solution(p, g)
}

/// The cell at row-major index `k`.
pub open spec fn cell_at(g: Seq<Seq<Cell>>, n: int, k: int) -> Cell {
    g[k / n][k % n]
}

/// At some row-major index at or after `i` the two grids first part ways,
/// with `b` holding `Filled` there and `g` holding `Empty`.  Because the
/// search tries `Filled` before `Empty` at every cell and keeps the first
/// full solution, the board it returns is preferred in this sense over
/// every other solution.
pub open spec fn filled_first_from(b: Seq<Seq<Cell>>, g: Seq<Seq<Cell>>, n: int, i: int) -> bool {
    exists|k: int|
        #![trigger prefix_eq(g, b, n, k)]
        i <= k < n * n && prefix_eq(g, b, n, k) && cell_at(b, n, k) == Cell::Filled && cell_at(
            g,
            n,
            k,
        ) == Cell::Empty
}

/// Lowering the starting index keeps the preference.
pub(crate) proof fn lemma_filled_first_weaken(
    b: Seq<Seq<Cell>>,
    g: Seq<Seq<Cell>>,
    n: int,
    i1: int,
    i2: int,
)
    requires
        i2 <= i1,
        filled_first_from(b, g, n, i1),
    ensures
        filled_first_from(b, g, n, i2),
{
    let k = choose|k: int|
        #![trigger prefix_eq(g, b, n, k)]
        i1 <= k < n * n && prefix_eq(g, b, n, k) && cell_at(b, n, k) == Cell::Filled && cell_at(
            g,
            n,
            k,
        ) == Cell::Empty;
    assert(i2 <= k < n * n && prefix_eq(g, b, n, k) && cell_at(b, n, k) == Cell::Filled && cell_at(
        g,
        n,
        k,
    ) == Cell::Empty);
}

/// Row-major order agrees with lexicographic order on coordinates.
pub(crate) proof fn lemma_lex_linear(n: int, r: int, c: int, x: int, y: int)
    requires
        0 <= c < n,
        0 <= y < n,
        0 <= r,
        0 <= x,
    ensures
        (r * n + c < x * n + y + 1) <==> (r < x || (r == x && c <= y)),
        (r * n + c == x * n + y) <==> (r == x && c == y),
{
    if r < x {
        assert(r * n + c < x * n + y) by (nonlinear_arith)
            requires
                0 <= c < n,
                0 <= y,
                r < x,
        ;
    } else if r > x {
        assert(r * n + c >= x * n + y + 1) by (nonlinear_arith)
            requires
                0 <= c,
                0 <= y < n,
                r > x,
        ;
    }
}

/// Updating one cell keeps the grid square.
pub(crate) proof fn lemma_update_preserves_wf(base: Seq<Seq<Cell>>, n: int, x: int, y: int, v: Cell)
    requires
        base.len() == n,
        grid_wf(base),
        0 <= x < n,
        0 <= y < n,
    ensures
        grid_wf(base.update(x, base[x].update(y, v))),
        base.update(x, base[x].update(y, v)).len() == n,
{
    let upd = base.update(x, base[x].update(y, v));
    assert forall|i: int| 0 <= i < upd.len() implies (#[trigger] upd[i]).len() == upd.len() by {
        if i == x {
            assert(upd[i] == base[x].update(y, v));
        } else {
            assert(upd[i] == base[i]);
        }
    }
}

/// In a board whose assigned cells (those below row-major index
/// `x * n + y + 1`) agree with a solution grid `g` and whose later cells
/// are still `Empty`, row `x` and column `y` both pass the partial
/// consistency check.  Used forward to keep the witness alive during the
/// search, and contrapositively to justify pruning.
pub(crate) proof fn lemma_partial_lines_consistent(
    p: &Puzzle,
    g: Seq<Seq<Cell>>,
    b: Seq<Seq<Cell>>,
    n: int,
    x: int,
    y: int,
)
    requires
        is_solution(*p, g),
        g.len() == n,
        grid_wf(g),
        b.len() == n,
        grid_wf(b),
        0 <= x < n,
        0 <= y < n,
        prefix_eq(g, b, n, x * n + y + 1),
        suffix_empty(b, n, x * n + y + 1),
    ensures
        line_consistent(p.rows@[x]@, b[x]),
        line_consistent(p.cols@[y]@, col_of(b, y)),
{
    // Row x of `b` is row x of `g` up to column y, then all `Empty`.
    let brow = b[x];
    let grow = g[x];
    assert(brow.len() == n);
    assert(grow.len() == n);
    assert forall|c2: int| 0 <= c2 <= y implies brow[c2] == grow[c2] by {
        lemma_lex_linear(n, x, c2, x, y);
        assert(g[x][c2] == b[x][c2]);
    }
    assert forall|c2: int| y < c2 < n implies brow[c2] == Cell::Empty by {
        lemma_lex_linear(n, x, c2, x, y);
        assert(b[x][c2] == Cell::Empty);
    }
    assert(brow.take(y + 1) =~= grow.take(y + 1));
    lemma_runs_ignore_trailing_empty(brow, y + 1);
    lemma_runs_take_prefix(grow, y + 1);
    let trow = p.rows@[x]@;
    assert(as_ints(trow) == runs_of(grow));
    assert(consistent_runs(trow, runs_of(grow))) by {
        assert(as_ints(trow).len() == trow.len());
        assert forall|k: int| 0 <= k < runs_of(grow).len() implies #[trigger] runs_of(grow)[k]
            <= trow[k] as int by {
            assert(runs_of(grow)[k] == as_ints(trow)[k]);
        }
    }
    lemma_consistent_run_prefix(trow, runs_of(grow.take(y + 1)), runs_of(grow));
    assert(runs_of(brow) == runs_of(grow.take(y + 1)));

    // Column y of `b` is column y of `g` up to row x, then all `Empty`.
    let bcol = col_of(b, y);
    let gcol = col_of(g, y);
    assert(bcol.len() == n);
    assert(gcol.len() == n);
    assert forall|r2: int| 0 <= r2 <= x implies bcol[r2] == gcol[r2] by {
        lemma_lex_linear(n, r2, y, x, y);
        assert(g[r2][y] == b[r2][y]);
    }
    assert forall|r2: int| x < r2 < n implies bcol[r2] == Cell::Empty by {
        lemma_lex_linear(n, r2, y, x, y);
        assert(b[r2][y] == Cell::Empty);
    }
    assert(bcol.take(x + 1) =~= gcol.take(x + 1));
    lemma_runs_ignore_trailing_empty(bcol, x + 1);
    lemma_runs_take_prefix(gcol, x + 1);
    let tcol = p.cols@[y]@;
    assert(as_ints(tcol) == runs_of(gcol));
    assert(consistent_runs(tcol, runs_of(gcol))) by {
        assert(as_ints(tcol).len() == tcol.len());
        assert forall|k: int| 0 <= k < runs_of(gcol).len() implies #[trigger] runs_of(gcol)[k]
            <= tcol[k] as int by {
            assert(runs_of(gcol)[k] == as_ints(tcol)[k]);
        }
    }
    lemma_consistent_run_prefix(tcol, runs_of(gcol.take(x + 1)), runs_of(gcol));
    assert(runs_of(bcol) == runs_of(gcol.take(x + 1)));
}

/// A grid that agrees with `base` below index `x * n + y` and holds `v` at
/// `(x, y)` agrees below `x * n + y + 1` with `base` updated at `(x, y)`.
pub(crate) proof fn lemma_prefix_eq_extend(
    g: Seq<Seq<Cell>>,
    base: Seq<Seq<Cell>>,
    n: int,
    x: int,
    y: int,
    v: Cell,
)
    requires
        0 <= x < n,
        0 <= y < n,
        g.len() == n,
        base.len() == n,
        grid_wf(base),
        prefix_eq(g, base, n, x * n + y),
        g[x][y] == v,
    ensures
        prefix_eq(g, base.update(x, base[x].update(y, v)), n, x * n + y + 1),
{
    let upd = base.update(x, base[x].update(y, v));
    assert forall|r: int, c: int|
        0 <= r < n && 0 <= c < n && r * n + c < x * n + y + 1 implies #[trigger] g[r][c]
        == #[trigger] upd[r][c] by {
        lemma_lex_linear(n, r, c, x, y);
        if r == x && c == y {
            assert(upd[x] == base[x].update(y, v));
            assert(upd[r][c] == v);
        } else {
            assert(r * n + c < x * n + y);
            assert(g[r][c] == base[r][c]);
            if r == x {
                assert(upd[r][c] == base[x].update(y, v)[c]);
                assert(upd[r][c] == base[r][c]);
            } else {
                assert(upd[r] == base[r]);
            }
        }
    }
}

/// Below index zero there is nothing to agree on.
pub(crate) proof fn lemma_prefix_eq_zero(g: Seq<Seq<Cell>>, h: Seq<Seq<Cell>>, n: int)
    requires
        n >= 0,
    ensures
        prefix_eq(g, h, n, 0),
{
    assert forall|r: int, c: int|
        #![trigger g[r][c]]
        #![trigger h[r][c]]
        0 <= r < n && 0 <= c < n && r * n + c < 0 implies g[r][c] == h[r][c] by {
        assert(r * n >= 0) by (nonlinear_arith)
            requires
                r >= 0,
                n >= 0,
        ;
        assert(false);
    }
}

/// A grid that agrees below `x * n + y + 1` with `base` updated at
/// `(x, y)` agrees below `x * n + y` with `base` itself.
pub(crate) proof fn lemma_prefix_eq_restrict(
    s: Seq<Seq<Cell>>,
    base: Seq<Seq<Cell>>,
    n: int,
    x: int,
    y: int,
    v: Cell,
)
    requires
        0 <= x < n,
        0 <= y < n,
        s.len() == n,
        base.len() == n,
        grid_wf(base),
        prefix_eq(s, base.update(x, base[x].update(y, v)), n, x * n + y + 1),
    ensures
        prefix_eq(s, base, n, x * n + y),
{
    let upd = base.update(x, base[x].update(y, v));
    assert forall|r: int, c: int|
        0 <= r < n && 0 <= c < n && r * n + c < x * n + y implies #[trigger] s[r][c]
        == #[trigger] base[r][c] by {
        lemma_lex_linear(n, r, c, x, y);
        assert(r * n + c < x * n + y + 1);
        assert(s[r][c] == upd[r][c]);
        if r == x {
            assert(c != y);
            assert(upd[r][c] == base[x].update(y, v)[c]);
        } else {
            assert(upd[r] == base[r]);
        }
    }
}

/// Writing any value at the first unassigned position keeps every later
/// position `Empty`.
pub(crate) proof fn lemma_suffix_empty_extend(base: Seq<Seq<Cell>>, n: int, x: int, y: int, v: Cell)
    requires
        0 <= x < n,
        0 <= y < n,
        base.len() == n,
        grid_wf(base),
        suffix_empty(base, n, x * n + y),
    ensures
        suffix_empty(base.update(x, base[x].update(y, v)), n, x * n + y + 1),
{
    let upd = base.update(x, base[x].update(y, v));
    assert forall|r: int, c: int|
        0 <= r < n && 0 <= c < n && r * n + c >= x * n + y + 1 implies #[trigger] upd[r][c]
        == Cell::Empty by {
        lemma_lex_linear(n, r, c, x, y);
        assert(base[r][c] == Cell::Empty);
        if r == x {
            assert(upd[r][c] == base[x].update(y, v)[c]);
        } else {
            assert(upd[r] == base[r]);
        }
    }
}

/// Check column `col` of a partially assigned board against its clue list:
/// the runs derived so far must be no more numerous than the clues, and
/// each must stay within its clue's bound.
pub fn is_valid_col(puzzle: &Puzzle, solution: &Board, col: usize) -> (r: bool)
    requires
        grid_wf(solution@),
        solution@.len() <= u32::MAX,
        col < solution@.len(),
        col < puzzle.cols@.len(),
    ensures
        r == line_consistent(puzzle.cols@[col as int]@, col_of(solution@, col as int)),
{
    let sub = solution.from_col(col);
    let ghost d = runs_of(col_of(solution@, col as int));
    if sub.len() > puzzle.cols[col].len() {
        return false;
    }
    let mut k: usize = 0;
    while k < sub.len()
        invariant
            k <= sub@.len(),
            as_ints(sub@) == d,
            d == runs_of(col_of(solution@, col as int)),
            d.len() == sub@.len(),
            sub@.len() <= puzzle.cols@[col as int]@.len(),
            col < puzzle.cols@.len(),
            forall|j: int| 0 <= j < k ==> #[trigger] d[j] <= puzzle.cols@[col as int]@[j] as int,
        decreases sub@.len() - k,
    {
        if sub[k] > puzzle.cols[col][k] {
            proof {
                assert(d[k as int] == sub@[k as int] as int);
                let t = puzzle.cols@[col as int]@;
                assert(d[k as int] > t[k as int] as int);
                if consistent_runs(t, d) {
                    assert(d[k as int] <= t[k as int] as int);
                }
                assert(!line_consistent(t, col_of(solution@, col as int)));
            }
            return false;
        }
        proof {
            assert(d[k as int] == sub@[k as int] as int);
        }
        k += 1;
    }
    true
}

/// Check row `row` of a partially assigned board against its clue list,
/// symmetrically to `is_valid_col`.
pub fn is_valid_row(puzzle: &Puzzle, solution: &Board, row: usize) -> (r: bool)
    requires
        grid_wf(solution@),
        solution@.len() <= u32::MAX,
        row < solution@.len(),
        row < puzzle.rows@.len(),
    ensures
        r == line_consistent(puzzle.rows@[row as int]@, solution@[row as int]),
{
    let sub = solution.from_row(row);
    let ghost d = runs_of(solution@[row as int]);
    if sub.len() > puzzle.rows[row].len() {
        return false;
    }
    let mut k: usize = 0;
    while k < sub.len()
        invariant
            k <= sub@.len(),
            as_ints(sub@) == d,
            d == runs_of(solution@[row as int]),
            d.len() == sub@.len(),
            sub@.len() <= puzzle.rows@[row as int]@.len(),
            row < puzzle.rows@.len(),
            forall|j: int| 0 <= j < k ==> #[trigger] d[j] <= puzzle.rows@[row as int]@[j] as int,
        decreases sub@.len() - k,
    {
        if sub[k] > puzzle.rows[row][k] {
            proof {
                assert(d[k as int] == sub@[k as int] as int);
                let t = puzzle.rows@[row as int]@;
                assert(d[k as int] > t[k as int] as int);
                if consistent_runs(t, d) {
                    assert(d[k as int] <= t[k as int] as int);
                }
                assert(!line_consistent(t, solution@[row as int]));
            }
            return false;
        }
        proof {
            assert(d[k as int] == sub@[k as int] as int);
        }
        k += 1;
    }
    true
}

/// Decide whether `solution` solves `puzzle`: the derived clue lists must
/// equal the puzzle's clue lists exactly, on both axes.
pub fn is_valid(puzzle: &Puzzle, solution: &Board) -> (r: bool)
    requires
        grid_wf(solution@),
        solution@.len() <= u32::MAX,
    ensures
        r == is_solution(*puzzle, solution@),
{
    let n = solution.size();
    if puzzle.rows.len() != n || puzzle.cols.len() != n {
        return false;
    }
    let mut i: usize = 0;
    while i < n
        invariant
            grid_wf(solution@),
            solution@.len() <= u32::MAX,
            n == solution@.len(),
            puzzle.rows@.len() == n,
            puzzle.cols@.len() == n,
            i <= n,
            forall|k: int| 0 <= k < i ==> as_ints(#[trigger] puzzle.rows@[k]@) == runs_of(
                solution@[k],
            ),
        decreases n - i,
    {
        let derived = solution.from_row(i);
        let same = clues_eq(&puzzle.rows[i], &derived);
        proof {
            lemma_as_ints_eq(puzzle.rows@[i as int]@, derived@);
        }
        if !same {
            return false;
        }
        i += 1;
    }
    let mut j: usize = 0;
    while j < n
        invariant
            grid_wf(solution@),
            solution@.len() <= u32::MAX,
            n == solution@.len(),
            puzzle.rows@.len() == n,
            puzzle.cols@.len() == n,
            j <= n,
            forall|k: int| 0 <= k < n ==> as_ints(#[trigger] puzzle.rows@[k]@) == runs_of(
                solution@[k],
            ),
            forall|k: int| 0 <= k < j ==> as_ints(#[trigger] puzzle.cols@[k]@) == runs_of(
                col_of(solution@, k),
            ),
        decreases n - j,
    {
        let derived = solution.from_col(j);
        let same = clues_eq(&puzzle.cols[j], &derived);
        proof {
            lemma_as_ints_eq(puzzle.cols@[j as int]@, derived@);
        }
        if !same {
            return false;
        }
        j += 1;
    }
    true
}

/// Depth-first assignment from row-major index `i` onwards.  At each index
/// it tries `Filled` then `Empty`, prunes with the partial row and column
/// checks, and recurses on an independent copy of the board.  The first
/// fully assigned board that passes the exact check is returned.
///
/// If it returns a board, that board solves the puzzle, keeps the cells
/// already assigned below `i`, and is preferred in the Filled-first sense
/// over every other solution extending that prefix; if it returns
/// nothing, no grid extending the prefix solves the puzzle.
pub fn solve_backtracking(puzzle: &Puzzle, i: usize, board: Board) -> (r: Option<Board>)
    requires
        puzzle.rows@.len() == puzzle.cols@.len(),
        board@.len() == puzzle.rows@.len(),
        grid_wf(board@),
        board@.len() <= u32::MAX,
        board@.len() * board@.len() <= usize::MAX,
        i <= board@.len() * board@.len(),
        suffix_empty(board@, board@.len() as int, i as int),
    ensures
        r is Some ==> r.unwrap()@.len() == puzzle.rows@.len() && grid_wf(r.unwrap()@)
            && is_solution(*puzzle, r.unwrap()@),
        r is Some ==> prefix_eq(r.unwrap()@, board@, board@.len() as int, i as int),
        r is Some ==> forall|g: Seq<Seq<Cell>>|
            g.len() == board@.len() && grid_wf(g) && #[trigger] prefix_eq(
                g,
                board@,
                board@.len() as int,
                i as int,
            ) && is_solution(*puzzle, g) && g != r.unwrap()@ ==> filled_first_from(
                r.unwrap()@,
                g,
                board@.len() as int,
                i as int,
            ),
        r is None ==> no_solution_with_prefix(*puzzle, board@, board@.len() as int, i as int),
    decreases board@.len() * board@.len() - i,
{
    let ghost board0 = board@;
    let ghost n_s = board@.len() as int;
    let n = puzzle.size();
    if i >= n * n {
        proof {
            assert forall|g: Seq<Seq<Cell>>|
                g.len() == n_s && grid_wf(g) && #[trigger] prefix_eq(g, board0, n_s, i as int)
                implies g == board0 by {
                assert forall|r2: int| 0 <= r2 < n_s implies g[r2] == board0[r2] by {
                    assert(g[r2].len() == n_s);
                    assert(board0[r2].len() == n_s);
                    assert forall|c2: int| 0 <= c2 < n_s implies g[r2][c2] == board0[r2][c2] by {
                        assert(r2 * n_s + c2 < n_s * n_s) by (nonlinear_arith)
                            requires
                                0 <= r2 < n_s,
                                0 <= c2 < n_s,
                        ;
                    }
                    assert(g[r2] =~= board0[r2]);
                }
                assert(g =~= board0);
            }
        }
        if is_valid(puzzle, &board) {
            proof {
                assert(prefix_eq(board0, board0, n_s, i as int));
                assert forall|g: Seq<Seq<Cell>>|
                    g.len() == n_s && grid_wf(g) && #[trigger] prefix_eq(g, board0, n_s, i as int)
                        && is_solution(*puzzle, g) && g != board0
                    implies filled_first_from(board0, g, n_s, i as int) by {
                    assert(g == board0);
                    assert(false);
                }
            }
            return Some(board);
        } else {
            proof {
                assert(no_solution_with_prefix(*puzzle, board0, n_s, i as int));
            }
            return None;
        }
    }
    proof {
        if n_s == 0 {
            assert(false);
        }
    }
    let x = i / n;
    let y = i % n;
    proof {
        lemma_fundamental_div_mod(i as int, n_s);
        lemma_mod_bound(i as int, n_s);
        assert(x as int == (i as int) / n_s);
        assert(y as int == (i as int) % n_s);
        assert(i as int == n_s * ((i as int) / n_s) + (i as int) % n_s);
        assert((x as int) * n_s + (y as int) == i as int);
        assert((x as int) < n_s) by (nonlinear_arith)
            requires
                n_s * (x as int) + (y as int) == i as int,
                0 <= y as int,
                (i as int) < n_s * n_s,
                0 < n_s,
        ;
    }
    let mut b = board;

    // First trial: Filled.
    b.set_cell(x, y, Cell::Filled);
    let ghost bf = b@;
    proof {
        lemma_update_preserves_wf(board0, n_s, x as int, y as int, Cell::Filled);
        lemma_suffix_empty_extend(board0, n_s, x as int, y as int, Cell::Filled);
        assert(suffix_empty(bf, n_s, i as int + 1));
    }
    if is_valid_col(puzzle, &b, y) && is_valid_row(puzzle, &b, x) {
        match solve_backtracking(puzzle, i + 1, b.duplicate()) {
            Some(solved) => {
                proof {
                    lemma_prefix_eq_restrict(
                        solved@,
                        board0,
                        n_s,
                        x as int,
                        y as int,
                        Cell::Filled,
                    );
                    assert(prefix_eq(solved@, board0, n_s, i as int));
                    assert forall|g: Seq<Seq<Cell>>|
                        g.len() == n_s && grid_wf(g) && #[trigger] prefix_eq(
                            g,
                            board0,
                            n_s,
                            i as int,
                        ) && is_solution(*puzzle, g) && g != solved@
                        implies filled_first_from(solved@, g, n_s, i as int) by {
                        if g[x as int][y as int] == Cell::Filled {
                            lemma_prefix_eq_extend(
                                g,
                                board0,
                                n_s,
                                x as int,
                                y as int,
                                Cell::Filled,
                            );
                            assert(prefix_eq(g, bf, n_s, i as int + 1));
                            assert(filled_first_from(solved@, g, n_s, i as int + 1));
                            lemma_filled_first_weaken(solved@, g, n_s, i as int + 1, i as int);
                        } else {
                            // The returned board holds Filled at (x, y) and
                            // g holds Empty: index i is their first difference.
                            assert forall|r2: int, c2: int|
                                #![trigger g[r2][c2]]
                                #![trigger solved@[r2][c2]]
                                0 <= r2 < n_s && 0 <= c2 < n_s && r2 * n_s + c2 < i as int
                                implies g[r2][c2] == solved@[r2][c2] by {
                                assert(g[r2][c2] == board0[r2][c2]);
                                assert(solved@[r2][c2] == board0[r2][c2]);
                            }
                            assert(prefix_eq(g, solved@, n_s, i as int));
                            assert(solved@[x as int][y as int] == bf[x as int][y as int]);
                            assert(cell_at(solved@, n_s, i as int) == Cell::Filled);
                            assert(cell_at(g, n_s, i as int) == Cell::Empty);
                            assert(filled_first_from(solved@, g, n_s, i as int));
                        }
                    }
                }
                return Some(solved);
            },
            None => {
                proof {
                    assert(no_solution_with_prefix(*puzzle, bf, n_s, i as int + 1));
                }
            },
        }
    } else {
        proof {
            assert forall|g: Seq<Seq<Cell>>|
                g.len() == n_s && grid_wf(g) && #[trigger] prefix_eq(g, bf, n_s, i as int + 1)
                implies !is_solution(*puzzle, g) by {
                if is_solution(*puzzle, g) {
                    lemma_partial_lines_consistent(puzzle, g, bf, n_s, x as int, y as int);
                    assert(false);
                }
            }
            assert(no_solution_with_prefix(*puzzle, bf, n_s, i as int + 1));
        }
    }

    // Second trial: Empty.
    b.set_cell(x, y, Cell::Empty);
    let ghost be = b@;
    proof {
        assert(bf[x as int].update(y as int, Cell::Empty) =~= board0[x as int].update(
            y as int,
            Cell::Empty,
        ));
        assert(be =~= board0.update(x as int, board0[x as int].update(y as int, Cell::Empty)));
        lemma_update_preserves_wf(board0, n_s, x as int, y as int, Cell::Empty);
        lemma_suffix_empty_extend(board0, n_s, x as int, y as int, Cell::Empty);
        assert(suffix_empty(be, n_s, i as int + 1));
    }
    if is_valid_col(puzzle, &b, y) && is_valid_row(puzzle, &b, x) {
        match solve_backtracking(puzzle, i + 1, b.duplicate()) {
            Some(solved) => {
                proof {
                    lemma_prefix_eq_restrict(
                        solved@,
                        board0,
                        n_s,
                        x as int,
                        y as int,
                        Cell::Empty,
                    );
                    assert(prefix_eq(solved@, board0, n_s, i as int));
                    assert forall|g: Seq<Seq<Cell>>|
                        g.len() == n_s && grid_wf(g) && #[trigger] prefix_eq(
                            g,
                            board0,
                            n_s,
                            i as int,
                        ) && is_solution(*puzzle, g) && g != solved@
                        implies filled_first_from(solved@, g, n_s, i as int) by {
                        if g[x as int][y as int] == Cell::Filled {
                            // No solution extends the Filled trial here, so
                            // g cannot be one.
                            lemma_prefix_eq_extend(
                                g,
                                board0,
                                n_s,
                                x as int,
                                y as int,
                                Cell::Filled,
                            );
                            assert(prefix_eq(g, bf, n_s, i as int + 1));
                            assert(!is_solution(*puzzle, g));
                            assert(false);
                        } else {
                            lemma_prefix_eq_extend(
                                g,
                                board0,
                                n_s,
                                x as int,
                                y as int,
                                Cell::Empty,
                            );
                            assert(prefix_eq(g, be, n_s, i as int + 1));
                            assert(filled_first_from(solved@, g, n_s, i as int + 1));
                            lemma_filled_first_weaken(solved@, g, n_s, i as int + 1, i as int);
                        }
                    }
                }
                return Some(solved);
            },
            None => {
                proof {
                    assert(no_solution_with_prefix(*puzzle, be, n_s, i as int + 1));
                }
            },
        }
    } else {
        proof {
            assert forall|g: Seq<Seq<Cell>>|
                g.len() == n_s && grid_wf(g) && #[trigger] prefix_eq(g, be, n_s, i as int + 1)
                implies !is_solution(*puzzle, g) by {
                if is_solution(*puzzle, g) {
                    lemma_partial_lines_consistent(puzzle, g, be, n_s, x as int, y as int);
                    assert(false);
                }
            }
            assert(no_solution_with_prefix(*puzzle, be, n_s, i as int + 1));
        }
    }

    // Both trials exhausted: no grid extending the prefix can solve the
    // puzzle, because its cell at (x, y) would have to be Filled or Empty.
    proof {
        assert forall|g: Seq<Seq<Cell>>|
            g.len() == n_s && grid_wf(g) && #[trigger] prefix_eq(g, board0, n_s, i as int)
            implies !is_solution(*puzzle, g) by {
            if is_solution(*puzzle, g) {
                let v = g[x as int][y as int];
                if v == Cell::Filled {
                    lemma_prefix_eq_extend(g, board0, n_s, x as int, y as int, Cell::Filled);
                    assert(prefix_eq(g, bf, n_s, i as int + 1));
                } else {
                    lemma_prefix_eq_extend(g, board0, n_s, x as int, y as int, Cell::Empty);
                    assert(prefix_eq(g, be, n_s, i as int + 1));
                }
                assert(false);
            }
        }
        assert(no_solution_with_prefix(*puzzle, board0, n_s, i as int));
    }
    None
}

/// Solve a square puzzle: search from an all-`Empty` board.  Returns
/// nothing exactly when no square grid solves the puzzle; otherwise the
/// first solution in the search's fixed order, the one preferred over
/// every other solution in the Filled-first row-major sense.
pub fn solve(puzzle: &Puzzle) -> (r: Option<Board>)
    requires
        puzzle.rows@.len() == puzzle.cols@.len(),
        puzzle.rows@.len() <= u32::MAX,
        puzzle.rows@.len() * puzzle.rows@.len() <= usize::MAX,
    ensures
        r is Some ==> r.unwrap()@.len() == puzzle.rows@.len() && grid_wf(r.unwrap()@)
            && is_solution(*puzzle, r.unwrap()@),
        r is Some ==> forall|g: Seq<Seq<Cell>>|
            grid_wf(g) && #[trigger] is_solution(*puzzle, g) && g != r.unwrap()@
                ==> filled_first_from(r.unwrap()@, g, puzzle.rows@.len() as int, 0),
        r is None ==> forall|g: Seq<Seq<Cell>>| grid_wf(g) ==> !(#[trigger] is_solution(
            *puzzle,
            g,
        )),
{
    let n = puzzle.size();
    let mut table: Vec<Vec<Cell>> = Vec::new();
    let mut i: usize = 0;
    while i < n
        invariant
            i <= n,
            table@.len() == i,
            forall|k: int| 0 <= k < i ==> (#[trigger] table@[k]@).len() == n && forall|c: int|
                0 <= c < n ==> table@[k]@[c] == Cell::Empty,
        decreases n - i,
    {
        let mut row: Vec<Cell> = Vec::new();
        let mut j: usize = 0;
        while j < n
            invariant
                j <= n,
                row@.len() == j,
                forall|c: int| 0 <= c < j ==> #[trigger] row@[c] == Cell::Empty,
            decreases n - j,
        {
            row.push(Cell::Empty);
            j += 1;
        }
        table.push(row);
        i += 1;
    }
    let board = Board { table };
    let ghost board0 = board@;
    proof {
        assert(board0.len() == n);
        assert(grid_wf(board0));
        assert forall|r2: int, c2: int|
            #![trigger board0[r2][c2]]
            0 <= r2 < n && 0 <= c2 < n && r2 * (n as int) + c2 >= 0 implies board0[r2][c2]
            == Cell::Empty by {}
        assert(suffix_empty(board0, n as int, 0));
    }
    let result = solve_backtracking(puzzle, 0, board);
    proof {
        if result is None {
            assert forall|g: Seq<Seq<Cell>>| grid_wf(g) implies !(#[trigger] is_solution(
                *puzzle,
                g,
            )) by {
                if is_solution(*puzzle, g) {
                    assert(g.len() == puzzle.rows@.len());
                    lemma_prefix_eq_zero(g, board0, n as int);
                    assert(prefix_eq(g, board0, n as int, 0));
                    assert(false);
                }
            }
        } else {
            assert forall|g: Seq<Seq<Cell>>|
                grid_wf(g) && #[trigger] is_solution(*puzzle, g) && g != result.unwrap()@
                implies filled_first_from(result.unwrap()@, g, puzzle.rows@.len() as int, 0) by {
                assert(g.len() == puzzle.rows@.len());
                lemma_prefix_eq_zero(g, board0, n as int);
                assert(prefix_eq(g, board0, n as int, 0));
            }
        }
    }
    result
}

} // verus!
